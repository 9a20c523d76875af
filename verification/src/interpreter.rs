//! The tree-walking interpreter: definitions are turned into terms and
//! evaluated directly, with a stack of scopes.

use vstd::prelude::*;

use crate::compiler::is_prefix;
use crate::diagnostics::{Diagnostics, Span};
use crate::text;
use crate::text::{debug_escape, debug_escaped};
use crate::text::{
    chars_of, decimal, is_whitespace, is_whitespace_char, owned, str_eq, substring,
    usize_to_decimal,
};

verus! {

// Syntax of the interpreted language.
#[derive(Debug)]
pub enum Expression {
    Variable { name: String },
    Function { params: Vec<String>, body: Box<ExpressionNode> },
    Group { inner: Box<ExpressionNode> },
    Integer(i16),
    String(String),
    Call { callee: Box<ExpressionNode>, arg: Box<ExpressionNode> },
}

#[derive(Debug)]
pub struct ExpressionNode {
    pub kind: Expression,
    pub span: Span,
}

#[derive(Debug)]
pub enum Statement {
    Function {
        name: String,
        params: Vec<String>,
        body: ExpressionNode,
        where_clause: Vec<StatementNode>,
    },
    Variable { name: String, value: ExpressionNode, where_clause: Vec<StatementNode> },
}

#[derive(Debug)]
pub struct StatementNode {
    pub kind: Statement,
    pub span: Span,
}

/// A term of the interpreted language.
#[derive(Debug)]
pub enum Term {
    Variable(String),
    Function { param: String, body: Box<Term> },
    String(String),
    Group(Box<Term>),
    Call { callee: Box<Term>, arg: Box<Term> },
    Bool(bool),
    Integer(i32),
}

/// `\p0 -> \p1 -> ... -> body`.
pub open spec fn curried(params: Seq<String>, body: Term) -> Term
    decreases params.len(),
{
    if params.len() == 0 {
        body
    } else {
        Term::Function { param: params[0], body: Box::new(curried(params.drop_first(), body)) }
    }
}

proof fn lemma_curried_push(params: Seq<String>, p: String, body: Term)
    ensures
        curried(params.push(p), body) == curried(params, Term::Function { param: p, body: Box::new(body) }),
    decreases params.len(),
{
    if params.len() > 0 {
        assert(params.push(p).drop_first() =~= params.drop_first().push(p));
        assert(params.push(p)[0] == params[0]);
        lemma_curried_push(params.drop_first(), p, body);
    } else {
        assert(params.push(p).drop_first() =~= Seq::<String>::empty());
        assert(params.push(p)[0] == p);
        assert(curried(Seq::<String>::empty(), body) == body);
    }
}

/// The term an expression stands for: parameters are curried and groups
/// dissolve.
pub open spec fn term_of(e: Expression) -> Term
    decreases e,
{
    match e {
        Expression::Variable { name } => Term::Variable(name),
        Expression::Function { params, body } => curried(params@, term_of(body.kind)),
        Expression::Group { inner } => term_of(inner.kind),
        Expression::Integer(i) => Term::Integer(i as i32),
        Expression::String(s) => Term::String(s),
        Expression::Call { callee, arg } => Term::Call {
            callee: Box::new(term_of(callee.kind)),
            arg: Box::new(term_of(arg.kind)),
        },
    }
}

fn curry(params: Vec<String>, body: Term) -> (v: Term)
    ensures
        v == curried(params@, body),
{
    let ghost all = params@;
    let mut ps = params;
    let mut b = body;
    while ps.len() > 0
        invariant
            curried(ps@, b) == curried(all, body),
        decreases ps@.len(),
    {
        let ghost before = ps@;
        let p = ps.pop().unwrap();
        proof {
            assert(before == ps@.push(p));
            lemma_curried_push(ps@, p, b);
        }
        b = Term::Function { param: p, body: Box::new(b) };
    }
    b
}

impl Term {
    pub fn from_expression(expr: Expression) -> (v: Term)
        ensures
            v == term_of(expr),
        decreases expr,
    {
        match expr {
            Expression::Variable { name } => Term::Variable(name),
            Expression::Function { params, body } => {
                let b = Term::from_expression(body.kind);
                curry(params, b)
            },
            Expression::Group { inner } => Term::from_expression(inner.kind),
            Expression::Integer(i) => Term::Integer(i as i32),
            Expression::String(s) => Term::String(s),
            Expression::Call { callee, arg } => Term::Call {
                callee: Box::new(Term::from_expression(callee.kind)),
                arg: Box::new(Term::from_expression(arg.kind)),
            },
        }
    }

    pub fn clone_value(&self) -> (v: Term)
        ensures
            v == *self,
        decreases self,
    {
        match self {
            Term::Variable(s) => Term::Variable(s.clone()),
            Term::Function { param, body } => Term::Function {
                param: param.clone(),
                body: Box::new(body.clone_value()),
            },
            Term::String(s) => Term::String(s.clone()),
            Term::Group(inner) => Term::Group(Box::new(inner.clone_value())),
            Term::Call { callee, arg } => Term::Call {
                callee: Box::new(callee.clone_value()),
                arg: Box::new(arg.clone_value()),
            },
            Term::Bool(b) => Term::Bool(*b),
            Term::Integer(i) => Term::Integer(*i),
        }
    }
}

/// A named definition: what a statement binds.
#[derive(Debug)]
pub struct Variable {
    pub name: String,
    pub value: Term,
}

/// What a statement binds: its parameters curried around its body, inside
/// which its `where` definitions are bound, the first outermost.
pub open spec fn definition_of(s: Statement) -> (String, Term)
    decreases s,
{
    match s {
        Statement::Function { name, params, body, where_clause } => (
            name,
            curried(params@, with_where(where_clause@, term_of(body.kind))),
        ),
        Statement::Variable { name, value, where_clause } => (
            name,
            with_where(where_clause@, term_of(value.kind)),
        ),
    }
}

/// `body` inside the `where` definitions `ws`: each one is a function of
/// its name applied to its value.
pub open spec fn with_where(ws: Seq<StatementNode>, body: Term) -> Term
    decreases ws,
{
    if ws.len() == 0 {
        body
    } else {
        let d = definition_of(ws[0].kind);
        Term::Call {
            callee: Box::new(Term::Function { param: d.0, body: Box::new(with_where(ws.drop_first(), body)) }),
            arg: Box::new(d.1),
        }
    }
}

proof fn lemma_with_where_push(ws: Seq<StatementNode>, w: StatementNode, body: Term)
    ensures
        with_where(ws.push(w), body) == with_where(
            ws,
            Term::Call {
                callee: Box::new(Term::Function { param: definition_of(w.kind).0, body: Box::new(body) }),
                arg: Box::new(definition_of(w.kind).1),
            },
        ),
    decreases ws.len(),
{
    if ws.len() > 0 {
        assert(ws.push(w).drop_first() =~= ws.drop_first().push(w));
        assert(ws.push(w)[0] == ws[0]);
        lemma_with_where_push(ws.drop_first(), w, body);
    } else {
        assert(ws.push(w).drop_first() =~= Seq::<StatementNode>::empty());
        assert(ws.push(w)[0] == w);
        assert(with_where(ws.push(w).drop_first(), body) == body);
        assert(ws =~= Seq::<StatementNode>::empty());
    }
}

#[verifier::loop_isolation(false)]
fn wrap_where(ws: Vec<StatementNode>, body: Term) -> (t: Term)
    ensures
        t == with_where(ws@, body),
    decreases ws,
{
    let ghost all = ws@;
    let ghost orig = ws;
    let mut rest = ws;
    let mut b = body;
    while rest.len() > 0
        invariant
            with_where(rest@, b) == with_where(all, body),
            all == orig@,
            rest@.len() <= all.len(),
            forall|i: int| 0 <= i < rest@.len() ==> rest@[i] == all[i],
        decreases rest@.len(),
    {
        let ghost before = rest@;
        let w = rest.pop().unwrap();
        proof {
            assert(before == rest@.push(w));
            assert(w == all[rest@.len() as int]);
            lemma_with_where_push(rest@, w, b);
            let k = rest@.len() as int;
            assert(decreases_to!(orig => orig@));
            assert(decreases_to!(orig@ => orig@[k]));
            assert(decreases_to!(orig@[k] => orig@[k].kind));
            assert(decreases_to!(orig => w.kind));
        }
        let d = Variable::from_statement(w.kind);
        b = Term::Call {
            callee: Box::new(Term::Function { param: d.name, body: Box::new(b) }),
            arg: Box::new(d.value),
        };
    }
    b
}

impl Variable {
    /// The definition a statement makes.
    pub fn from_statement(stat: Statement) -> (v: Variable)
        ensures
            (v.name, v.value) == definition_of(stat),
        decreases stat,
    {
        match stat {
            Statement::Function { name, params, body, where_clause } => {
                let b = Term::from_expression(body.kind);
                let w = wrap_where(where_clause, b);
                Variable { name, value: curry(params, w) }
            },
            Statement::Variable { name, value, where_clause } => {
                let b = Term::from_expression(value.kind);
                let w = wrap_where(where_clause, b);
                Variable { name, value: w }
            },
        }
    }
}

/// The decimal rendering of an integer, with a leading `-` when negative.
pub open spec fn int_text(i: int) -> Seq<char> {
    if i < 0 {
        seq!['-'] + decimal((-i) as nat)
    } else {
        decimal(i as nat)
    }
}

/// How a term is shown: the shape of Rust's `{:?}` of the term, its
/// strings between quotes and escaped as `{:?}` escapes them.
pub open spec fn term_text(t: Term) -> Seq<char>
    decreases t,
{
    match t {
        Term::Variable(s) => "Variable(\""@ + debug_escaped(s@) + "\")"@,
        Term::Function { param, body } => "Function { param: \""@ + debug_escaped(param@) + "\", body: "@
            + term_text(*body) + " }"@,
        Term::String(s) => "String(\""@ + debug_escaped(s@) + "\")"@,
        Term::Group(inner) => "Group("@ + term_text(*inner) + ")"@,
        Term::Call { callee, arg } => "Call { callee: "@ + term_text(*callee) + ", arg: "@ + term_text(*arg)
            + " }"@,
        Term::Bool(b) => if b {
            "Bool(true)"@
        } else {
            "Bool(false)"@
        },
        Term::Integer(i) => "Integer("@ + int_text(i as int) + ")"@,
    }
}

fn int_to_text(i: i32) -> (s: String)
    ensures
        s@ == int_text(i as int),
{
    if i < 0 {
        let magnitude: usize = if i == i32::MIN {
            2147483648usize
        } else {
            (-i) as usize
        };
        let digits = usize_to_decimal(magnitude);
        let r = text::concat(&owned("-"), digits.as_str());
        proof {
            reveal_strlit("-");
        }
        r
    } else {
        usize_to_decimal(i as usize)
    }
}

impl Term {
    /// The text of this term (see `term_text`).
    pub fn render(&self) -> (s: String)
        ensures
            s@ == term_text(*self),
        decreases self,
    {
        match self {
            Term::Variable(s) => {
                let a = text::concat(&owned("Variable(\""), debug_escape(s.as_str()).as_str());
                text::concat(&a, "\")")
            },
            Term::Function { param, body } => {
                let a = text::concat(&owned("Function { param: \""), debug_escape(param.as_str()).as_str());
                let b = text::concat(&a, "\", body: ");
                let inner = body.render();
                let c = text::concat(&b, inner.as_str());
                text::concat(&c, " }")
            },
            Term::String(s) => {
                let a = text::concat(&owned("String(\""), debug_escape(s.as_str()).as_str());
                text::concat(&a, "\")")
            },
            Term::Group(inner) => {
                let t = inner.render();
                let a = text::concat(&owned("Group("), t.as_str());
                text::concat(&a, ")")
            },
            Term::Call { callee, arg } => {
                let c = callee.render();
                let a = arg.render();
                let x = text::concat(&owned("Call { callee: "), c.as_str());
                let y = text::concat(&x, ", arg: ");
                let z = text::concat(&y, a.as_str());
                text::concat(&z, " }")
            },
            Term::Bool(b) => if *b {
                owned("Bool(true)")
            } else {
                owned("Bool(false)")
            },
            Term::Integer(i) => {
                let t = int_to_text(*i);
                let a = text::concat(&owned("Integer("), t.as_str());
                text::concat(&a, ")")
            },
        }
    }
}

/// A function of the host, with what it has captured so far.
#[derive(Debug)]
pub enum Native {
    /// `std::io::print`: shows its argument.
    Print,
    /// `std::string::concat`, waiting for its left string.
    Concat,
    /// `std::string::concat` with its left string.
    ConcatWith(String),
    /// `std::control::if` of the interpreter's library, waiting for its condition.
    ControlIf,
    /// What `std::control::if` gives back for a true (or non-boolean) condition.
    ControlIfTaken,
    /// `std::int::add`, waiting for its left integer.
    IntAdd,
    /// `std::int::add` with its left integer.
    IntAddWith(i32),
    /// `std::control::if` of the standard library: evaluates only the branch it takes.
    StdControlIf,
    /// The true branch of it, waiting for the then-branch.
    IfTrue,
    /// The true branch with its then-branch, ignoring the else-branch.
    IfTrueWith(Box<BindingValue>),
    /// The false branch of it, ignoring the then-branch.
    IfFalse,
    /// The false branch waiting for the else-branch.
    IfFalseThen,
    /// `std::parser::whitespace`: the string without its leading whitespace.
    ParserWhitespace,
    /// `std::parser::text`: the string up to its first whitespace.
    ParserText,
    /// `std::string::concat` of the standard library, waiting for its left string.
    StringConcat,
    /// It with its left string.
    StringConcatWith(String),
}

/// What a name is bound to: a host function or a term.
#[derive(Debug)]
pub enum BindingValue {
    NativeFunction(Native),
    Value(Term),
}

#[derive(Debug)]
pub struct Binding {
    pub name: String,
    pub value: BindingValue,
}

/// Whether a host function receives its argument evaluated.
pub open spec fn eager(n: Native) -> bool {
    !(n is IfTrueWith || n is IfFalse)
}

/// The name a host function reports itself by.
pub open spec fn native_name(n: Native) -> Seq<char> {
    match n {
        Native::Print => "std::io::print"@,
        Native::Concat | Native::StringConcat => "std::string::concat"@,
        Native::ConcatWith(_) | Native::StringConcatWith(_) => "std::string::concat::rhs"@,
        Native::ControlIf | Native::ControlIfTaken | Native::StdControlIf => "std::control::if"@,
        Native::IntAdd | Native::IntAddWith(_) => "std::int::add"@,
        Native::IfTrue | Native::IfTrueWith(_) => "std::control::if::true"@,
        Native::IfFalse | Native::IfFalseThen => "std::control::if::false"@,
        Native::ParserWhitespace => "std::parser::whitespace"@,
        Native::ParserText => "std::parser::text"@,
    }
}

impl Native {
    pub fn clone_native(&self) -> (r: Native)
        ensures
            r == *self,
        decreases self, 0nat,
    {
        match self {
            Native::Print => Native::Print,
            Native::Concat => Native::Concat,
            Native::ConcatWith(s) => Native::ConcatWith(s.clone()),
            Native::ControlIf => Native::ControlIf,
            Native::ControlIfTaken => Native::ControlIfTaken,
            Native::IntAdd => Native::IntAdd,
            Native::IntAddWith(i) => Native::IntAddWith(*i),
            Native::StdControlIf => Native::StdControlIf,
            Native::IfTrue => Native::IfTrue,
            Native::IfTrueWith(b) => Native::IfTrueWith(Box::new(b.clone_binding_value())),
            Native::IfFalse => Native::IfFalse,
            Native::IfFalseThen => Native::IfFalseThen,
            Native::ParserWhitespace => Native::ParserWhitespace,
            Native::ParserText => Native::ParserText,
            Native::StringConcat => Native::StringConcat,
            Native::StringConcatWith(s) => Native::StringConcatWith(s.clone()),
        }
    }

    pub fn is_eager(&self) -> (b: bool)
        ensures
            b == eager(*self),
    {
        match self {
            Native::IfTrueWith(_) => false,
            Native::IfFalse => false,
            _ => true,
        }
    }

    pub fn name(&self) -> (s: String)
        ensures
            s@ == native_name(*self),
    {
        match self {
            Native::Print => owned("std::io::print"),
            Native::Concat | Native::StringConcat => owned("std::string::concat"),
            Native::ConcatWith(_) | Native::StringConcatWith(_) => owned("std::string::concat::rhs"),
            Native::ControlIf | Native::ControlIfTaken | Native::StdControlIf => owned("std::control::if"),
            Native::IntAdd | Native::IntAddWith(_) => owned("std::int::add"),
            Native::IfTrue | Native::IfTrueWith(_) => owned("std::control::if::true"),
            Native::IfFalse | Native::IfFalseThen => owned("std::control::if::false"),
            Native::ParserWhitespace => owned("std::parser::whitespace"),
            Native::ParserText => owned("std::parser::text"),
        }
    }
}

impl BindingValue {
    pub fn clone_binding_value(&self) -> (r: BindingValue)
        ensures
            r == *self,
        decreases self, 1nat,
    {
        match self {
            BindingValue::NativeFunction(n) => BindingValue::NativeFunction(n.clone_native()),
            BindingValue::Value(t) => BindingValue::Value(t.clone_value()),
        }
    }

    /// A string term.
    pub fn from_string(s: String) -> (r: BindingValue)
        ensures
            r == BindingValue::Value(Term::String(s)),
    {
        BindingValue::Value(Term::String(s))
    }
}

impl Binding {
    /// The binding a definition makes.
    pub fn from_variable(value: Variable) -> (b: Binding)
        ensures
            b.name == value.name,
            b.value == BindingValue::Value(value.value),
    {
        Binding { name: value.name, value: BindingValue::Value(value.value) }
    }

    pub fn clone_binding(&self) -> (r: Binding)
        ensures
            r == *self,
    {
        Binding { name: self.name.clone(), value: self.value.clone_binding_value() }
    }
}

/// `s` without its leading whitespace.
pub open spec fn trim_start(s: Seq<char>) -> Seq<char>
    decreases s.len(),
{
    if s.len() > 0 && is_whitespace_char(s[0]) {
        trim_start(s.drop_first())
    } else {
        s
    }
}

/// `s` up to its first whitespace character.
pub open spec fn first_word(s: Seq<char>) -> Seq<char>
    decreases s.len(),
{
    if s.len() == 0 || is_whitespace_char(s[0]) {
        Seq::empty()
    } else {
        seq![s[0]] + first_word(s.drop_first())
    }
}

/// What an argument of the wrong kind is reported as. The standard
/// library's functions name a host function; the interpreter's own say
/// only that it is one.
pub open spec fn got_text(expected: Seq<char>, arg: BindingValue, names_natives: bool) -> Seq<char> {
    "expect "@ + expected + ", got "@ + match arg {
        BindingValue::Value(t) => term_text(t),
        BindingValue::NativeFunction(n) => if names_natives {
            native_name(n)
        } else {
            "native function"@
        },
    }
}

pub open spec fn string_arg(arg: BindingValue) -> Option<Seq<char>> {
    match arg {
        BindingValue::Value(Term::String(s)) => Some(s@),
        _ => None,
    }
}

pub open spec fn is_string_value(r: BindingValue, text: Seq<char>) -> bool {
    r matches BindingValue::Value(Term::String(x)) && x@ == text
}

/// What applying host function `n` to `arg` returns.
pub open spec fn native_post(n: Native, arg: BindingValue, r: Result<BindingValue, Diagnostics>) -> bool {
    let err = |m: Seq<char>| r matches Err(d) && d.message@ == m;
    match n {
        Native::Print => is_string_value(r->Ok_0, "std::io::print"@) && r is Ok,
        Native::Concat | Native::StringConcat => match string_arg(arg) {
            Some(l) => r matches Ok(BindingValue::NativeFunction(m)) && (if n is Concat {
                m matches Native::ConcatWith(x) && x@ == l
            } else {
                m matches Native::StringConcatWith(x) && x@ == l
            }),
            None => err(got_text("string"@, arg, n is StringConcat)),
        },
        Native::ConcatWith(l) | Native::StringConcatWith(l) => match string_arg(arg) {
            Some(rs) => r is Ok && is_string_value(r->Ok_0, l@ + rs),
            None => err(got_text("string"@, arg, n is StringConcatWith)),
        },
        Native::ControlIf => if arg == BindingValue::Value(Term::Bool(false)) {
            r is Ok && is_string_value(r->Ok_0, "std::control::if"@)
        } else {
            r == Ok::<BindingValue, Diagnostics>(BindingValue::NativeFunction(Native::ControlIfTaken))
        },
        Native::ControlIfTaken => r is Ok && is_string_value(r->Ok_0, "std::control::if"@),
        Native::IntAdd => match arg {
            BindingValue::Value(Term::Integer(l)) => r == Ok::<BindingValue, Diagnostics>(
                BindingValue::NativeFunction(Native::IntAddWith(l)),
            ),
            _ => err(got_text("integer"@, arg, false)),
        },
        Native::IntAddWith(l) => match arg {
            BindingValue::Value(Term::Integer(x)) => if i32::MIN <= l + x <= i32::MAX {
                r == Ok::<BindingValue, Diagnostics>(BindingValue::Value(Term::Integer((l + x) as i32)))
            } else {
                err("integer overflow"@)
            },
            _ => err(got_text("integer"@, arg, false)),
        },
        Native::StdControlIf => r == Ok::<BindingValue, Diagnostics>(
            BindingValue::NativeFunction(
                if arg == BindingValue::Value(Term::Bool(false)) {
                    Native::IfFalse
                } else {
                    Native::IfTrue
                },
            ),
        ),
        Native::IfTrue => r == Ok::<BindingValue, Diagnostics>(
            BindingValue::NativeFunction(Native::IfTrueWith(Box::new(arg))),
        ),
        Native::IfTrueWith(then_value) => r == Ok::<BindingValue, Diagnostics>(*then_value),
        Native::IfFalse => r == Ok::<BindingValue, Diagnostics>(BindingValue::NativeFunction(Native::IfFalseThen)),
        Native::IfFalseThen => r == Ok::<BindingValue, Diagnostics>(arg),
        Native::ParserWhitespace => match string_arg(arg) {
            Some(s) => r is Ok && is_string_value(r->Ok_0, trim_start(s)),
            None => err(got_text("string"@, arg, true)),
        },
        Native::ParserText => match string_arg(arg) {
            Some(s) => r is Ok && is_string_value(r->Ok_0, first_word(s)),
            None => err(got_text("string"@, arg, true)),
        },
    }
}

/// What `print` shows for a value.
pub open spec fn shown(arg: BindingValue) -> Seq<char> {
    match arg {
        BindingValue::Value(t) => term_text(t),
        BindingValue::NativeFunction(_) => "<native function>"@,
    }
}

fn got_error(expected: &str, arg: &BindingValue, names_natives: bool) -> (d: Diagnostics)
    ensures
        d.message@ == got_text(expected@, *arg, names_natives),
{
    let head = text::concat(&text::concat(&owned("expect "), expected), ", got ");
    let what = match arg {
        BindingValue::Value(t) => t.render(),
        BindingValue::NativeFunction(n) => if names_natives {
            n.name()
        } else {
            owned("native function")
        },
    };
    Diagnostics::runtime_error(text::concat(&head, what.as_str()), Span::zero())
}

fn trim_start_exec(s: &String) -> (r: String)
    ensures
        r@ == trim_start(s@),
{
    let chars = chars_of(s.as_str());
    let mut i: usize = 0;
    proof {
        assert(chars@.subrange(0, chars@.len() as int) =~= chars@);
    }
    while i < chars.len() && is_whitespace(chars[i])
        invariant
            i <= chars@.len(),
            trim_start(chars@.subrange(i as int, chars@.len() as int)) == trim_start(chars@),
        decreases chars@.len() - i,
    {
        proof {
            let rest = chars@.subrange(i as int, chars@.len() as int);
            assert(rest.drop_first() =~= chars@.subrange(i as int + 1, chars@.len() as int));
        }
        i = i + 1;
    }
    proof {
        let rest = chars@.subrange(i as int, chars@.len() as int);
        if i < chars@.len() {
            assert(rest[0] == chars@[i as int]);
        }
        assert(chars@.subrange(0, chars@.len() as int) =~= chars@);
    }
    substring(&chars, i, chars.len())
}

proof fn lemma_first_word_prefix(s: Seq<char>, i: int)
    requires
        0 <= i <= s.len(),
        forall|j: int| 0 <= j < i ==> !is_whitespace_char(#[trigger] s[j]),
    ensures
        first_word(s) == s.subrange(0, i) + first_word(s.subrange(i, s.len() as int)),
    decreases i,
{
    if i > 0 {
        let t = s.drop_first();
        assert forall|j: int| 0 <= j < i - 1 implies !is_whitespace_char(#[trigger] t[j]) by {
            assert(t[j] == s[j + 1]);
        }
        lemma_first_word_prefix(t, i - 1);
        assert(t.subrange(i - 1, t.len() as int) =~= s.subrange(i, s.len() as int));
        assert(seq![s[0]] + t.subrange(0, i - 1) =~= s.subrange(0, i));
    } else {
        assert(s.subrange(0, 0) =~= Seq::<char>::empty());
        assert(s.subrange(0, s.len() as int) =~= s);
    }
}

fn first_word_exec(s: &String) -> (r: String)
    ensures
        r@ == first_word(s@),
{
    let chars = chars_of(s.as_str());
    let mut i: usize = 0;
    while i < chars.len() && !is_whitespace(chars[i])
        invariant
            i <= chars@.len(),
            forall|j: int| 0 <= j < i ==> !is_whitespace_char(#[trigger] chars@[j]),
        decreases chars@.len() - i,
    {
        i = i + 1;
    }
    proof {
        lemma_first_word_prefix(chars@, i as int);
        let rest = chars@.subrange(i as int, chars@.len() as int);
        if i < chars@.len() {
            assert(rest[0] == chars@[i as int]);
        } else {
            assert(rest =~= Seq::<char>::empty());
        }
        assert(first_word(rest) =~= Seq::<char>::empty());
        assert(chars@.subrange(0, i as int) + Seq::<char>::empty() =~= chars@.subrange(0, i as int));
    }
    substring(&chars, 0, i)
}

/// Applies host function `n` to `arg`; `print` adds the shown value to `output`.
pub fn apply_native(n: &Native, arg: BindingValue, output: &mut Vec<String>) -> (r: Result<BindingValue, Diagnostics>)
    ensures
        native_post(*n, arg, r),
        n is Print ==> final(output)@.len() == old(output)@.len() + 1 && final(output)@.last()@ == shown(
            arg,
        ) && final(output)@.drop_last() == old(output)@,
        !(n is Print) ==> final(output)@ == old(output)@,
{
    match n {
        Native::Print => {
            let text = match &arg {
                BindingValue::Value(t) => t.render(),
                BindingValue::NativeFunction(_) => owned("<native function>"),
            };
            output.push(text);
            proof {
                assert(output@.drop_last() =~= old(output)@);
            }
            Ok(BindingValue::from_string(owned("std::io::print")))
        },
        Native::Concat | Native::StringConcat => {
            let names = n.is_string_concat();
            match arg {
                BindingValue::Value(Term::String(l)) => if names {
                    Ok(BindingValue::NativeFunction(Native::StringConcatWith(l)))
                } else {
                    Ok(BindingValue::NativeFunction(Native::ConcatWith(l)))
                },
                other => Err(got_error("string", &other, names)),
            }
        },
        Native::ConcatWith(l) | Native::StringConcatWith(l) => {
            let names = n.is_string_concat();
            match arg {
                BindingValue::Value(Term::String(rs)) => Ok(
                    BindingValue::from_string(text::concat(l, rs.as_str())),
                ),
                other => Err(got_error("string", &other, names)),
            }
        },
        Native::ControlIf => match arg {
            BindingValue::Value(Term::Bool(false)) => Ok(BindingValue::from_string(owned("std::control::if"))),
            _ => Ok(BindingValue::NativeFunction(Native::ControlIfTaken)),
        },
        Native::ControlIfTaken => Ok(BindingValue::from_string(owned("std::control::if"))),
        Native::IntAdd => match arg {
            BindingValue::Value(Term::Integer(l)) => Ok(BindingValue::NativeFunction(Native::IntAddWith(l))),
            other => Err(got_error("integer", &other, false)),
        },
        Native::IntAddWith(l) => match arg {
            BindingValue::Value(Term::Integer(x)) => match l.checked_add(x) {
                Some(sum) => Ok(BindingValue::Value(Term::Integer(sum))),
                None => Err(Diagnostics::runtime_error(owned("integer overflow"), Span::zero())),
            },
            other => Err(got_error("integer", &other, false)),
        },
        Native::StdControlIf => match arg {
            BindingValue::Value(Term::Bool(false)) => Ok(BindingValue::NativeFunction(Native::IfFalse)),
            _ => Ok(BindingValue::NativeFunction(Native::IfTrue)),
        },
        Native::IfTrue => Ok(BindingValue::NativeFunction(Native::IfTrueWith(Box::new(arg)))),
        Native::IfTrueWith(then_value) => Ok(then_value.clone_binding_value()),
        Native::IfFalse => Ok(BindingValue::NativeFunction(Native::IfFalseThen)),
        Native::IfFalseThen => Ok(arg),
        Native::ParserWhitespace => match arg {
            BindingValue::Value(Term::String(s)) => Ok(BindingValue::from_string(trim_start_exec(&s))),
            other => Err(got_error("string", &other, true)),
        },
        Native::ParserText => match arg {
            BindingValue::Value(Term::String(s)) => Ok(BindingValue::from_string(first_word_exec(&s))),
            other => Err(got_error("string", &other, true)),
        },
    }
}

impl Native {
    fn is_string_concat(&self) -> (b: bool)
        ensures
            b == (*self is StringConcat || *self is StringConcatWith),
    {
        match self {
            Native::StringConcat => true,
            Native::StringConcatWith(_) => true,
            _ => false,
        }
    }
}

/// The binding of `name` in a scope: the latest one made there.
pub open spec fn find_in_scope(scope: Seq<Binding>, name: Seq<char>) -> Option<Binding>
    decreases scope.len(),
{
    if scope.len() == 0 {
        None
    } else if scope.last().name@ == name {
        Some(scope.last())
    } else {
        find_in_scope(scope.drop_last(), name)
    }
}

/// The binding of `name` seen from the innermost scope outwards.
pub open spec fn lookup(scopes: Seq<Seq<Binding>>, name: Seq<char>) -> Option<Binding>
    decreases scopes.len(),
{
    if scopes.len() == 0 {
        None
    } else {
        match find_in_scope(scopes.last(), name) {
            Some(b) => Some(b),
            None => lookup(scopes.drop_last(), name),
        }
    }
}

/// A running program: a stack of scopes, innermost last, and what it has
/// printed so far.
pub struct Program {
    bind_pool_stack: Vec<Vec<Binding>>,
    output: Vec<String>,
}

impl Program {
    pub closed spec fn scopes(&self) -> Seq<Seq<Binding>> {
        self.bind_pool_stack@.map_values(|v: Vec<Binding>| v@)
    }

    /// The lines printed so far.
    pub closed spec fn printed(&self) -> Seq<Seq<char>> {
        self.output@.map_values(|s: String| s@)
    }

    /// The lines printed so far.
    pub fn output(&self) -> (v: Vec<String>)
        ensures
            v@.map_values(|s: String| s@) == self.printed(),
    {
        let mut v: Vec<String> = Vec::new();
        let mut i: usize = 0;
        while i < self.output.len()
            invariant
                i <= self.output@.len(),
                v@.len() == i,
                forall|j: int| 0 <= j < i ==> #[trigger] v@[j]@ == self.output@[j]@,
            decreases self.output@.len() - i,
        {
            v.push(self.output[i].clone());
            i = i + 1;
        }
        proof {
            assert(v@.map_values(|s: String| s@) =~= self.printed());
        }
        v
    }

    /// A program with one empty scope.
    pub fn new() -> (p: Self)
        ensures
            p.scopes() == seq![Seq::<Binding>::empty()],
            p.printed() == Seq::<Seq<char>>::empty(),
    {
        let mut stack: Vec<Vec<Binding>> = Vec::new();
        stack.push(Vec::new());
        let p = Program { bind_pool_stack: stack, output: Vec::new() };
        proof {
            assert(p.scopes() =~= seq![Seq::<Binding>::empty()]);
            assert(p.printed() =~= Seq::<Seq<char>>::empty());
        }
        p
    }

    /// Binds `bind.name` in the innermost scope.
    pub fn binding(&mut self, bind: Binding)
        ensures
            old(self).scopes().len() > 0 ==> final(self).scopes() == old(self).scopes().update(
                old(self).scopes().len() - 1,
                old(self).scopes().last().push(bind),
            ),
            old(self).scopes().len() == 0 ==> final(self).scopes() == old(self).scopes(),
            final(self).printed() == old(self).printed(),
    {
        if self.bind_pool_stack.len() > 0 {
            let ghost before = self.bind_pool_stack@;
            let mut top = self.bind_pool_stack.pop().unwrap();
            top.push(bind);
            self.bind_pool_stack.push(top);
            proof {
                assert(self.scopes() =~= old(self).scopes().update(
                    old(self).scopes().len() - 1,
                    old(self).scopes().last().push(bind),
                ));
            }
        }
    }

    fn find_in(scope: &Vec<Binding>, name: &str) -> (r: Option<Binding>)
        ensures
            r == find_in_scope(scope@, name@),
    {
        let key = owned(name);
        let mut i = scope.len();
        proof {
            assert(scope@.subrange(0, i as int) =~= scope@);
        }
        while i > 0
            invariant
                i <= scope@.len(),
                key@ == name@,
                find_in_scope(scope@, name@) == find_in_scope(scope@.subrange(0, i as int), name@),
            decreases i,
        {
            let ghost pre = scope@.subrange(0, i as int);
            proof {
                assert(pre.drop_last() =~= scope@.subrange(0, i as int - 1));
                assert(pre.last() == scope@[i as int - 1]);
            }
            if str_eq(&scope[i - 1].name, &key) {
                return Some(scope[i - 1].clone_binding());
            }
            i = i - 1;
        }
        None
    }

    /// The binding of `name`, innermost scope first.
    pub fn get_bind(&self, name: &str) -> (r: Option<Binding>)
        ensures
            r == lookup(self.scopes(), name@),
    {
        let mut i = self.bind_pool_stack.len();
        proof {
            assert(self.scopes().subrange(0, i as int) =~= self.scopes());
        }
        while i > 0
            invariant
                i <= self.scopes().len(),
                self.scopes().len() == self.bind_pool_stack@.len(),
                lookup(self.scopes(), name@) == lookup(self.scopes().subrange(0, i as int), name@),
            decreases i,
        {
            let ghost pre = self.scopes().subrange(0, i as int);
            proof {
                assert(pre.drop_last() =~= self.scopes().subrange(0, i as int - 1));
                assert(pre.last() == self.bind_pool_stack@[i as int - 1]@);
            }
            match Self::find_in(&self.bind_pool_stack[i - 1], name) {
                Some(b) => {
                    return Some(b);
                },
                None => {},
            }
            i = i - 1;
        }
        None
    }

    /// What evaluation keeps of the program: scopes are restored when it
    /// succeeds (a failure may leave inner scopes open), and printing only
    /// ever adds lines.
    pub open spec fn evaluated(pre: Program, post: Program, r: Result<BindingValue, Diagnostics>) -> bool {
        &&& r is Ok ==> post.scopes() == pre.scopes()
        &&& is_prefix(pre.scopes(), post.scopes())
        &&& is_prefix(pre.printed(), post.printed())
    }

    /// The lines printed after `n` is applied to `arg`, from `out`.
    pub open spec fn printed_after(n: Native, arg: BindingValue, out: Seq<Seq<char>>) -> Seq<Seq<char>> {
        if n is Print {
            out.push(shown(arg))
        } else {
            out
        }
    }

    /// Evaluating `t` with `fuel`, from scopes `s` and printed lines `o`,
    /// gives `r` and leaves scopes `s2` and printed lines `o2`. A variable
    /// is evaluated as what it is bound to; a call evaluates its callee,
    /// then (unless the callee is a host function that takes its argument
    /// unevaluated) its argument, then applies a host function, or
    /// evaluates a function's body with its parameter bound to the
    /// argument in a new scope, which is closed again on success. Each
    /// nested evaluation takes one unit of fuel.
    pub open spec fn evals(
        s: Seq<Seq<Binding>>,
        o: Seq<Seq<char>>,
        t: Term,
        fuel: nat,
        r: Result<BindingValue, Diagnostics>,
        s2: Seq<Seq<Binding>>,
        o2: Seq<Seq<char>>,
    ) -> bool
        decreases fuel,
    {
        let deep = r matches Err(d) && d.message@ == "evaluation too deep"@ && s2 == s && o2 == o;
        match t {
            Term::Variable(name) => match lookup(s, name@) {
                Some(b) => match b.value {
                    BindingValue::Value(v) => if fuel == 0 {
                        deep
                    } else {
                        Self::evals(s, o, v, (fuel - 1) as nat, r, s2, o2)
                    },
                    BindingValue::NativeFunction(nf) => r == Ok::<BindingValue, Diagnostics>(
                        BindingValue::NativeFunction(nf),
                    ) && s2 == s && o2 == o,
                },
                None => r matches Err(d) && d.message@ == "undefined variable: "@ + name@ && s2 == s && o2 == o,
            },
            Term::Call { callee, arg } => if fuel == 0 {
                deep
            } else {
                let f = (fuel - 1) as nat;
                exists|rc: Result<BindingValue, Diagnostics>, s1: Seq<Seq<Binding>>, o1: Seq<Seq<char>>|
                    #[trigger] Self::reached(rc, s1, o1) && Self::evals(s, o, *callee, f, rc, s1, o1) && match rc {
                        Err(e) => r == Err::<BindingValue, Diagnostics>(e) && s2 == s1 && o2 == o1,
                        Ok(BindingValue::NativeFunction(nf)) => if eager(nf) {
                            exists|ra: Result<BindingValue, Diagnostics>, sa: Seq<Seq<Binding>>, oa: Seq<Seq<char>>|
                                #[trigger] Self::reached(ra, sa, oa) && Self::evals(s1, o1, *arg, f, ra, sa, oa) && match ra {
                                    Err(e) => r == Err::<BindingValue, Diagnostics>(e) && s2 == sa && o2 == oa,
                                    Ok(a) => native_post(nf, a, r) && s2 == sa && o2 == Self::printed_after(nf, a, oa),
                                }
                        } else {
                            native_post(nf, BindingValue::Value(*arg), r) && s2 == s1 && o2 == Self::printed_after(
                                nf,
                                BindingValue::Value(*arg),
                                o1,
                            )
                        },
                        Ok(BindingValue::Value(tv)) => exists|
                            ra: Result<BindingValue, Diagnostics>,
                            sa: Seq<Seq<Binding>>,
                            oa: Seq<Seq<char>>,
                        |
                            #[trigger] Self::reached(ra, sa, oa) && Self::evals(s1, o1, *arg, f, ra, sa, oa) && match ra {
                                Err(e) => r == Err::<BindingValue, Diagnostics>(e) && s2 == sa && o2 == oa,
                                Ok(a) => match tv {
                                    Term::Function { param, body } => exists|
                                        rb: Result<BindingValue, Diagnostics>,
                                        sb: Seq<Seq<Binding>>,
                                        ob: Seq<Seq<char>>,
                                    |
                                        #[trigger] Self::reached(rb, sb, ob) && Self::evals(
                                            sa.push(seq![Binding { name: param, value: a }]),
                                            oa,
                                            *body,
                                            f,
                                            rb,
                                            sb,
                                            ob,
                                        ) && match rb {
                                            Err(e) => r == Err::<BindingValue, Diagnostics>(e) && s2 == sb && o2 == ob,
                                            Ok(v) => r == Ok::<BindingValue, Diagnostics>(v) && s2 == sb.drop_last()
                                                && o2 == ob,
                                        },
                                    other => r matches Err(d) && d.message@ == "can not call value: "@ + term_text(other)
                                        && s2 == sa && o2 == oa,
                                },
                            },
                    }
            },
            _ => r == Ok::<BindingValue, Diagnostics>(BindingValue::Value(t)) && s2 == s && o2 == o,
        }
    }

    /// A marker for an intermediate outcome of an evaluation.
    pub open spec fn reached(r: Result<BindingValue, Diagnostics>, s: Seq<Seq<Binding>>, o: Seq<Seq<char>>) -> bool {
        true
    }

    /// What evaluating `t` gives where no call or lookup is involved: the
    /// term itself, with the program unchanged.
    pub open spec fn evaluated_leaf(pre: Program, post: Program, t: Term, r: Result<BindingValue, Diagnostics>) -> bool {
        match t {
            Term::Variable(name) => lookup(pre.scopes(), name@) is None ==> (r matches Err(d)
                && d.message@ == "undefined variable: "@ + name@ && post.scopes() == pre.scopes()
                && post.printed() == pre.printed()),
            Term::Call { .. } => true,
            _ => r == Ok::<BindingValue, Diagnostics>(BindingValue::Value(t)) && post.scopes() == pre.scopes()
                && post.printed() == pre.printed(),
        }
    }

    fn push_scope(&mut self, b: Binding)
        ensures
            final(self).scopes() == old(self).scopes().push(seq![b]),
            final(self).printed() == old(self).printed(),
    {
        let mut scope: Vec<Binding> = Vec::new();
        scope.push(b);
        self.bind_pool_stack.push(scope);
        proof {
            assert(self.scopes() =~= old(self).scopes().push(seq![b]));
        }
    }

    fn pop_scope(&mut self)
        requires
            old(self).scopes().len() > 0,
        ensures
            final(self).scopes() == old(self).scopes().drop_last(),
            final(self).printed() == old(self).printed(),
    {
        self.bind_pool_stack.pop();
        proof {
            assert(self.scopes() =~= old(self).scopes().drop_last());
        }
    }

    fn print_native(&mut self, n: &Native, arg: BindingValue) -> (r: Result<BindingValue, Diagnostics>)
        ensures
            native_post(*n, arg, r),
            final(self).scopes() == old(self).scopes(),
            is_prefix(old(self).printed(), final(self).printed()),
            final(self).printed() == Self::printed_after(*n, arg, old(self).printed()),
    {
        let r = apply_native(n, arg, &mut self.output);
        proof {
            if n is Print {
                assert(self.printed() =~= old(self).printed().push(shown(arg)));
            } else {
                assert(self.printed() =~= old(self).printed());
            }
            assert(self.printed().len() >= old(self).printed().len());
            assert forall|i: int| 0 <= i < old(self).printed().len() implies #[trigger] self.printed()[i]
                == old(self).printed()[i] by {
                if n is Print {
                    assert(self.output@.drop_last()[i] == self.output@[i]);
                }
            }
        }
        r
    }

    fn eval(&mut self, value: &Term, fuel: usize) -> (r: Result<BindingValue, Diagnostics>)
        ensures
            Self::evaluated(*old(self), *final(self), r),
            Self::evaluated_leaf(*old(self), *final(self), *value, r),
            Self::evals(
                old(self).scopes(),
                old(self).printed(),
                *value,
                fuel as nat,
                r,
                final(self).scopes(),
                final(self).printed(),
            ),
        decreases fuel,
    {
        match value {
            Term::Variable(name) => match self.get_bind(name.as_str()) {
                Some(inner) => match inner.value {
                    BindingValue::Value(v) => {
                        if fuel == 0 {
                            return Err(Diagnostics::runtime_error(owned("evaluation too deep"), Span::zero()));
                        }
                        self.eval(&v, fuel - 1)
                    },
                    BindingValue::NativeFunction(nf) => Ok(BindingValue::NativeFunction(nf)),
                },
                None => {
                    let m = text::concat(&owned("undefined variable: "), name.as_str());
                    Err(Diagnostics::runtime_error(m, Span::zero()))
                },
            },
            Term::Call { callee, arg } => {
                if fuel == 0 {
                    return Err(Diagnostics::runtime_error(owned("evaluation too deep"), Span::zero()));
                }
                let ghost s0 = self.scopes();
                let ghost o0 = self.printed();
                let ghost f = (fuel - 1) as nat;
                assert(f == ((fuel as nat) - 1) as nat);
                assert(*value == Term::Call { callee: *callee, arg: *arg });
                let rc = self.eval(callee, fuel - 1);
                let ghost s1 = self.scopes();
                let ghost o1 = self.printed();
                let c = match rc {
                    Ok(c) => c,
                    Err(e) => {
                        proof {
                            assert(Self::reached(rc, s1, o1));
                        }
                        return Err(e);
                    },
                };
                match c {
                    BindingValue::NativeFunction(nf) => {
                        let a = if nf.is_eager() {
                            let ra = self.eval(arg, fuel - 1);
                            let ghost sa = self.scopes();
                            let ghost oa = self.printed();
                            match ra {
                                Ok(a) => a,
                                Err(e) => {
                                    proof {
                                        assert(Self::reached(rc, s1, o1));
                                        assert(Self::reached(ra, sa, oa));
                                    }
                                    return Err(e);
                                },
                            }
                        } else {
                            BindingValue::Value(arg.clone_value())
                        };
                        let ghost sa = self.scopes();
                        let ghost oa = self.printed();
                        let r = self.print_native(&nf, a);
                        proof {
                            assert(Self::reached(rc, s1, o1));
                            if eager(nf) {
                                assert(Self::reached(Ok::<BindingValue, Diagnostics>(a), sa, oa));
                            }
                        }
                        r
                    },
                    BindingValue::Value(t) => {
                        let ra = self.eval(arg, fuel - 1);
                        let ghost sa = self.scopes();
                        let ghost oa = self.printed();
                        let a = match ra {
                            Ok(a) => a,
                            Err(e) => {
                                proof {
                                    assert(Self::reached(rc, s1, o1));
                                    assert(Self::reached(ra, sa, oa));
                                }
                                return Err(e);
                            },
                        };
                        proof {
                            assert(Self::reached(rc, s1, o1));
                            assert(Self::reached(ra, sa, oa));
                        }
                        match t {
                            Term::Function { param, body } => {
                                let ghost outer = self.scopes();
                                self.push_scope(Binding { name: param, value: a });
                                let ghost sp = self.scopes();
                                let rb = self.eval(&body, fuel - 1);
                                let ghost sb = self.scopes();
                                let ghost ob = self.printed();
                                proof {
                                    assert(sp == sa.push(seq![Binding { name: param, value: a }]));
                                    assert(Self::reached(rb, sb, ob));
                                }
                                let res = match rb {
                                    Ok(v) => v,
                                    Err(e) => {
                                        return Err(e);
                                    },
                                };
                                self.pop_scope();
                                proof {
                                    assert(outer.push(seq![Binding { name: param, value: a }]).drop_last() =~= outer);
                                }
                                Ok(res)
                            },
                            other => {
                                let text = other.render();
                                let m = text::concat(&owned("can not call value: "), text.as_str());
                                Err(Diagnostics::runtime_error(m, Span::zero()))
                            },
                        }
                    },
                }
            },
            _ => Ok(BindingValue::Value(value.clone_value())),
        }
    }

    /// Evaluates a bound value: a term is evaluated, a host function is its
    /// own value.
    pub fn execute_bind_value(&mut self, bind_value: BindingValue) -> (r: Result<BindingValue, Diagnostics>)
        ensures
            Self::evaluated(*old(self), *final(self), r),
            bind_value matches BindingValue::Value(t) ==> Self::evaluated_leaf(*old(self), *final(self), t, r),
            bind_value matches BindingValue::Value(t) ==> Self::evals(
                old(self).scopes(),
                old(self).printed(),
                t,
                usize::MAX as nat,
                r,
                final(self).scopes(),
                final(self).printed(),
            ),
            bind_value is NativeFunction ==> r == Ok::<BindingValue, Diagnostics>(bind_value) && *final(self)
                == *old(self),
    {
        match bind_value {
            BindingValue::Value(t) => self.eval(&t, usize::MAX),
            BindingValue::NativeFunction(nf) => Ok(BindingValue::NativeFunction(nf)),
        }
    }

    /// Evaluates what `bind` binds.
    pub fn execute_bind(&mut self, bind: Binding) -> (r: Result<BindingValue, Diagnostics>)
        ensures
            Self::evaluated(*old(self), *final(self), r),
            bind.value matches BindingValue::Value(t) ==> Self::evaluated_leaf(*old(self), *final(self), t, r),
            bind.value matches BindingValue::Value(t) ==> Self::evals(
                old(self).scopes(),
                old(self).printed(),
                t,
                usize::MAX as nat,
                r,
                final(self).scopes(),
                final(self).printed(),
            ),
            bind.value is NativeFunction ==> r == Ok::<BindingValue, Diagnostics>(bind.value) && *final(self)
                == *old(self),
    {
        self.execute_bind_value(bind.value)
    }
}

/// `std::string::concat` of the interpreter's library, applied to its
/// left string: a function that appends its argument to it.
pub fn concat(program: &mut Program, lhs: BindingValue) -> (r: Result<BindingValue, Diagnostics>)
    ensures
        native_post(Native::Concat, lhs, r),
        *final(program) == *old(program),
{
    let mut none: Vec<String> = Vec::new();
    apply_native(&Native::Concat, lhs, &mut none)
}

/// `std::control::if` of the interpreter's library, applied to its
/// condition.
pub fn parlance_control_if(program: &mut Program, cond: BindingValue) -> (r: Result<BindingValue, Diagnostics>)
    ensures
        native_post(Native::ControlIf, cond, r),
        *final(program) == *old(program),
{
    let mut none: Vec<String> = Vec::new();
    apply_native(&Native::ControlIf, cond, &mut none)
}

/// `std::int::add` of the interpreter's library, applied to its left integer.
pub fn parlance_int_add(program: &mut Program, lhs: BindingValue) -> (r: Result<BindingValue, Diagnostics>)
    ensures
        native_post(Native::IntAdd, lhs, r),
        *final(program) == *old(program),
{
    let mut none: Vec<String> = Vec::new();
    apply_native(&Native::IntAdd, lhs, &mut none)
}

} // verus!
