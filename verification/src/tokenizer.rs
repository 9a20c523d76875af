//! The scanner: source text to a flat token stream.
//!
//! Every token is a maximal run of one character class: identifiers
//! (`[A-Za-z_][A-Za-z_:0-9]*`, with `let`, `in` and `infix` reserved), integer
//! literals, string literals between double quotes, the single characters
//! `( ) = \`, and symbol runs (`->` is the arrow).  Whitespace separates
//! tokens; a line feed is itself a token.

use vstd::prelude::*;

use crate::diagnostics::{Diagnostics, Origin, Span};
use crate::text::{
    byte_len, byte_offset, char_width, chars_of, is_ascii_digit_char, is_ascii_letter, is_digit,
    is_letter, is_whitespace, is_whitespace_char, lemma_byte_offset_monotone, owned, substring,
    utf8_len,
};

verus! {

#[derive(Debug, Clone, PartialEq, Eq)]
pub enum TokenKind {
    Identifier(String),
    Symbol(String),
    LeftParen,
    RightParen,
    Equal,
    Arrow,
    Lambda,
    Let,
    In,
    Infix,
    NewLine,
    String(String),
    Int(i32),
}

/// What a token kind stands for, with its text as a character sequence.
pub enum KindModel {
    Identifier(Seq<char>),
    Symbol(Seq<char>),
    LeftParen,
    RightParen,
    Equal,
    Arrow,
    Lambda,
    Let,
    In,
    Infix,
    NewLine,
    Text(Seq<char>),
    Int(int),
}

impl View for TokenKind {
    type V = KindModel;

    open spec fn view(&self) -> KindModel {
        match self {
            TokenKind::Identifier(s) => KindModel::Identifier(s@),
            TokenKind::Symbol(s) => KindModel::Symbol(s@),
            TokenKind::LeftParen => KindModel::LeftParen,
            TokenKind::RightParen => KindModel::RightParen,
            TokenKind::Equal => KindModel::Equal,
            TokenKind::Arrow => KindModel::Arrow,
            TokenKind::Lambda => KindModel::Lambda,
            TokenKind::Let => KindModel::Let,
            TokenKind::In => KindModel::In,
            TokenKind::Infix => KindModel::Infix,
            TokenKind::NewLine => KindModel::NewLine,
            TokenKind::String(s) => KindModel::Text(s@),
            TokenKind::Int(n) => KindModel::Int(*n as int),
        }
    }
}

/// The variant of a token kind, as a number (what `mem::discriminant` tells apart).
pub open spec fn variant_of(k: TokenKind) -> int {
    match k {
        TokenKind::Identifier(_) => 0,
        TokenKind::Symbol(_) => 1,
        TokenKind::LeftParen => 2,
        TokenKind::RightParen => 3,
        TokenKind::Equal => 4,
        TokenKind::Arrow => 5,
        TokenKind::Lambda => 6,
        TokenKind::Let => 7,
        TokenKind::In => 8,
        TokenKind::Infix => 9,
        TokenKind::NewLine => 10,
        TokenKind::String(_) => 11,
        TokenKind::Int(_) => 12,
    }
}

impl TokenKind {
    /// Whether the two kinds are the same variant, whatever they carry.
    pub fn mem_equal(&self, rhs: &TokenKind) -> (b: bool)
        ensures
            b == (variant_of(*self) == variant_of(*rhs)),
    {
        self.variant() == rhs.variant()
    }

    pub fn variant(&self) -> (v: u8)
        ensures
            v as int == variant_of(*self),
    {
        match self {
            TokenKind::Identifier(_) => 0,
            TokenKind::Symbol(_) => 1,
            TokenKind::LeftParen => 2,
            TokenKind::RightParen => 3,
            TokenKind::Equal => 4,
            TokenKind::Arrow => 5,
            TokenKind::Lambda => 6,
            TokenKind::Let => 7,
            TokenKind::In => 8,
            TokenKind::Infix => 9,
            TokenKind::NewLine => 10,
            TokenKind::String(_) => 11,
            TokenKind::Int(_) => 12,
        }
    }
}

#[derive(Debug, Clone)]
pub struct Token {
    pub kind: TokenKind,
    pub span: Span,
}

pub struct TokenModel {
    pub kind: KindModel,
    pub start: int,
    pub end: int,
}

impl View for Token {
    type V = TokenModel;

    open spec fn view(&self) -> TokenModel {
        TokenModel { kind: self.kind@, start: self.span.start as int, end: self.span.end as int }
    }
}

pub open spec fn tokens_view(ts: Seq<Token>) -> Seq<TokenModel> {
    ts.map_values(|t: Token| t@)
}

// ── Character classes ────────────────────────────────────────────

pub open spec fn is_ident_start(c: char) -> bool {
    is_ascii_letter(c) || c == '_'
}

pub open spec fn is_ident_cont(c: char) -> bool {
    is_ascii_letter(c) || c == '_' || c == ':' || is_ascii_digit_char(c)
}

pub open spec fn is_symbol_char(c: char) -> bool {
    !is_whitespace_char(c) && !(is_ascii_letter(c) || is_ascii_digit_char(c) || c == '('
        || c == ')' || c == '"')
}

pub enum Class {
    Ident,
    Digit,
    Sym,
}

pub open spec fn in_class(c: char, class: Class) -> bool {
    match class {
        Class::Ident => is_ident_cont(c),
        Class::Digit => is_ascii_digit_char(c),
        Class::Sym => is_symbol_char(c),
    }
}

/// The end of the maximal run of `class` characters that starts at `i`.
pub open spec fn run_end(s: Seq<char>, i: int, class: Class) -> int
    decreases s.len() - i,
{
    if 0 <= i < s.len() && in_class(s[i], class) {
        run_end(s, i + 1, class)
    } else {
        i
    }
}

/// The index of the first `"` at or after `i`, if there is one.
pub open spec fn quote_at_or_after(s: Seq<char>, i: int) -> Option<int>
    decreases s.len() - i,
{
    if i < 0 || i >= s.len() {
        None
    } else if s[i] == '"' {
        Some(i)
    } else {
        quote_at_or_after(s, i + 1)
    }
}

/// The value of a run of decimal digits.
pub open spec fn digits_value(d: Seq<char>) -> int
    decreases d.len(),
{
    if d.len() == 0 {
        0
    } else {
        digits_value(d.drop_last()) * 10 + (d.last() as int - '0' as int)
    }
}

pub open spec fn keyword_or_ident(text: Seq<char>) -> KindModel {
    if text == seq!['l', 'e', 't'] {
        KindModel::Let
    } else if text == seq!['i', 'n'] {
        KindModel::In
    } else if text == seq!['i', 'n', 'f', 'i', 'x'] {
        KindModel::Infix
    } else {
        KindModel::Identifier(text)
    }
}

pub open spec fn symbol_kind(text: Seq<char>) -> KindModel {
    if text == seq!['-', '>'] {
        KindModel::Arrow
    } else {
        KindModel::Symbol(text)
    }
}

/// The outcome of scanning a text.
pub enum ScanOutcome {
    Tokens(Seq<TokenModel>),
    /// A string literal that is not closed: the span from its quote to the end.
    Unterminated(int, int),
    /// An integer literal too large for `i32`.
    IntOverflow,
}

pub open spec fn cons(t: TokenModel, rest: ScanOutcome) -> ScanOutcome {
    match rest {
        ScanOutcome::Tokens(ts) => ScanOutcome::Tokens(seq![t] + ts),
        other => other,
    }
}

pub open spec fn tok(kind: KindModel, s: Seq<char>, i: int, j: int) -> TokenModel {
    TokenModel { kind, start: byte_offset(s, i) as int, end: byte_offset(s, j) as int }
}

/// Scanning of `s` from character index `i` on.
pub open spec fn scan(s: Seq<char>, i: int) -> ScanOutcome
    decreases s.len() - i, 1int,
{
    if i < 0 || i >= s.len() {
        ScanOutcome::Tokens(seq![])
    } else {
        let c = s[i];
        if is_whitespace_char(c) {
            if c == '\n' {
                cons(tok(KindModel::NewLine, s, i, i + 1), scan(s, i + 1))
            } else {
                scan(s, i + 1)
            }
        } else if is_ident_start(c) {
            scan_run(s, i, Class::Ident)
        } else if c == '"' {
            match quote_at_or_after(s, i + 1) {
                None => ScanOutcome::Unterminated(
                    byte_offset(s, i) as int,
                    byte_offset(s, s.len() as int) as int,
                ),
                Some(q) => if i < q < s.len() {
                    cons(
                        tok(KindModel::Text(s.subrange(i + 1, q)), s, i, q + 1),
                        scan(s, q + 1),
                    )
                } else {
                    ScanOutcome::Tokens(seq![])
                },
            }
        } else if is_ascii_digit_char(c) {
            scan_run(s, i, Class::Digit)
        } else if c == '(' {
            cons(tok(KindModel::LeftParen, s, i, i + 1), scan(s, i + 1))
        } else if c == ')' {
            cons(tok(KindModel::RightParen, s, i, i + 1), scan(s, i + 1))
        } else if c == '=' {
            cons(tok(KindModel::Equal, s, i, i + 1), scan(s, i + 1))
        } else if c == '\\' {
            cons(tok(KindModel::Lambda, s, i, i + 1), scan(s, i + 1))
        } else {
            scan_run(s, i, Class::Sym)
        }
    }
}

/// The token for the maximal run of `class` at `i`, followed by the rest.
pub open spec fn scan_run(s: Seq<char>, i: int, class: Class) -> ScanOutcome
    decreases s.len() - i, 0int,
{
    let j = run_end(s, i, class);
    if !(0 <= i < j <= s.len()) {
        ScanOutcome::Tokens(seq![])
    } else {
        let text = s.subrange(i, j);
        match class {
            Class::Ident => cons(tok(keyword_or_ident(text), s, i, j), scan(s, j)),
            Class::Digit => if digits_value(text) > i32::MAX {
                ScanOutcome::IntOverflow
            } else {
                cons(tok(KindModel::Int(digits_value(text)), s, i, j), scan(s, j))
            },
            Class::Sym => cons(tok(symbol_kind(text), s, i, j), scan(s, j)),
        }
    }
}

pub open spec fn prefixed(prefix: Seq<TokenModel>, o: ScanOutcome) -> ScanOutcome {
    match o {
        ScanOutcome::Tokens(ts) => ScanOutcome::Tokens(prefix + ts),
        other => other,
    }
}

proof fn lemma_run_end_bounds(s: Seq<char>, i: int, class: Class)
    requires
        0 <= i <= s.len(),
    ensures
        i <= run_end(s, i, class) <= s.len(),
    decreases s.len() - i,
{
    if i < s.len() && in_class(s[i], class) {
        lemma_run_end_bounds(s, i + 1, class);
    }
}

pub proof fn lemma_digits_value_push(d: Seq<char>, c: char)
    ensures
        digits_value(d.push(c)) == digits_value(d) * 10 + (c as int - '0' as int),
{
    assert(d.push(c).drop_last() =~= d);
}

pub proof fn lemma_digits_value_nonneg(d: Seq<char>)
    requires
        forall|k: int| 0 <= k < d.len() ==> is_ascii_digit_char(#[trigger] d[k]),
    ensures
        digits_value(d) >= 0,
    decreases d.len(),
{
    if d.len() > 0 {
        lemma_digits_value_nonneg(d.drop_last());
    }
}

proof fn lemma_prefixed_cons(prefix: Seq<TokenModel>, t: TokenModel, rest: ScanOutcome)
    ensures
        prefixed(prefix, cons(t, rest)) == prefixed(prefix.push(t), rest),
{
    match rest {
        ScanOutcome::Tokens(ts) => {
            assert(prefix + (seq![t] + ts) =~= prefix.push(t) + ts);
        },
        _ => {},
    }
}

fn message(text: &str) -> (s: String)
    ensures
        s@ == text@,
{
    owned(text)
}

/// The end of the maximal run of `class` characters starting at `i`.
fn scan_class_run(chars: &Vec<char>, i: usize, class: u8, current: usize, total: usize) -> (r: (
    usize,
    usize,
))
    requires
        i <= chars.len(),
        class < 3,
        current as nat == byte_offset(chars@, i as int),
        total as nat == utf8_len(chars@),
    ensures
        r.0 == run_end(chars@, i as int, class_of(class)),
        r.1 as nat == byte_offset(chars@, r.0 as int),
        i <= r.0 <= chars.len(),
        (i < chars.len() && in_class(chars@[i as int], class_of(class))) ==> r.0 > i,
{
    let ghost s = chars@;
    let mut j = i;
    let mut cur = current;
    proof {
        lemma_run_end_bounds(s, i as int, class_of(class));
    }
    while j < chars.len() && char_in_class(chars[j], class)
        invariant
            i <= j <= chars.len(),
            class < 3,
            s == chars@,
            run_end(s, j as int, class_of(class)) == run_end(s, i as int, class_of(class)),
            cur as nat == byte_offset(s, j as int),
            total as nat == utf8_len(s),
        decreases chars.len() - j,
    {
        proof {
            lemma_byte_offset_monotone(s, j as int + 1, s.len() as int);
        }
        cur = cur + char_width(chars[j]);
        j = j + 1;
    }
    (j, cur)
}

pub open spec fn class_of(class: u8) -> Class {
    if class == 0 {
        Class::Ident
    } else if class == 1 {
        Class::Digit
    } else {
        Class::Sym
    }
}

fn char_in_class(c: char, class: u8) -> (b: bool)
    requires
        class < 3,
    ensures
        b == in_class(c, class_of(class)),
{
    if class == 0 {
        is_letter(c) || c == '_' || c == ':' || is_digit(c)
    } else if class == 1 {
        is_digit(c)
    } else {
        !is_whitespace(c) && !(is_letter(c) || is_digit(c) || c == '(' || c == ')' || c == '"')
    }
}

/// The value of the digits `chars[i..j]`, or `None` when it exceeds `i32::MAX`.
fn digits_to_i32(chars: &Vec<char>, i: usize, j: usize) -> (r: Option<i32>)
    requires
        i <= j <= chars.len(),
        forall|k: int| i <= k < j ==> is_ascii_digit_char(#[trigger] chars@[k]),
    ensures
        match r {
            Some(v) => v as int == digits_value(chars@.subrange(i as int, j as int)),
            None => digits_value(chars@.subrange(i as int, j as int)) > i32::MAX,
        },
{
    let mut acc: i64 = 0;
    let mut k = i;
    while k < j
        invariant
            i <= k <= j <= chars.len(),
            forall|m: int| i <= m < j ==> is_ascii_digit_char(#[trigger] chars@[m]),
            0 <= acc <= i32::MAX,
            acc as int == digits_value(chars@.subrange(i as int, k as int)),
        decreases j - k,
    {
        let d = (chars[k] as u32 - '0' as u32) as i64;
        proof {
            assert(chars@.subrange(i as int, k as int + 1) =~= chars@.subrange(
                i as int,
                k as int,
            ).push(chars@[k as int]));
            lemma_digits_value_push(chars@.subrange(i as int, k as int), chars@[k as int]);
        }
        let next = acc * 10 + d;
        if next > 2147483647 {
            proof {
                let full = chars@.subrange(i as int, j as int);
                lemma_digits_prefix_bound(chars@, i as int, k as int + 1, j as int);
            }
            return None;
        }
        acc = next;
        k = k + 1;
    }
    Some(acc as i32)
}

/// Extending a digit run never makes its value smaller.
pub proof fn lemma_digits_prefix_bound(s: Seq<char>, i: int, k: int, j: int)
    requires
        0 <= i <= k <= j <= s.len(),
        forall|m: int| i <= m < j ==> is_ascii_digit_char(#[trigger] s[m]),
    ensures
        digits_value(s.subrange(i, k)) <= digits_value(s.subrange(i, j)),
    decreases j - k,
{
    if k < j {
        lemma_digits_prefix_bound(s, i, k, j - 1);
        assert(s.subrange(i, j) =~= s.subrange(i, j - 1).push(s[j - 1]));
        lemma_digits_value_push(s.subrange(i, j - 1), s[j - 1]);
        lemma_digits_value_nonneg(s.subrange(i, j - 1));
    }
}

fn seq_is(chars: &Vec<char>, i: usize, j: usize, word: &str) -> (b: bool)
    requires
        i <= j <= chars.len(),
    ensures
        b == (chars@.subrange(i as int, j as int) == word@),
{
    let w = chars_of(word);
    if j - i != w.len() {
        proof {
            assert(chars@.subrange(i as int, j as int).len() != word@.len());
        }
        return false;
    }
    let mut k: usize = 0;
    while k < w.len()
        invariant
            i <= j <= chars.len(),
            j - i == w.len(),
            w@ == word@,
            0 <= k <= w.len(),
            forall|m: int| 0 <= m < k ==> chars@[i + m] == w@[m],
        decreases w.len() - k,
    {
        if chars[i + k] != w[k] {
            proof {
                assert(chars@.subrange(i as int, j as int)[k as int] != word@[k as int]);
            }
            return false;
        }
        k = k + 1;
    }
    assert(chars@.subrange(i as int, j as int) =~= word@);
    true
}

/// Split `source` into tokens.
///
/// Fails with a parser error when a string literal is not closed, or when an
/// integer literal exceeds `i32::MAX`.
pub fn tokenize(source: &str) -> (r: Result<Vec<Token>, Diagnostics>)
    ensures
        match scan(source@, 0) {
            ScanOutcome::Tokens(ts) => r is Ok && tokens_view(r->Ok_0@) == ts,
            ScanOutcome::Unterminated(a, b) => r is Err && r->Err_0.span.start == a
                && r->Err_0.span.end == b && r->Err_0.origin == Origin::Parser,
            ScanOutcome::IntOverflow => r is Err && r->Err_0.origin == Origin::Parser,
        },
{
    let chars = chars_of(source);
    let total = byte_len(source);
    let ghost s = chars@;
    let mut tokens: Vec<Token> = Vec::new();
    let mut i: usize = 0;
    let mut current: usize = 0;
    proof {
        reveal_strlit("let");
        reveal_strlit("in");
        reveal_strlit("infix");
        reveal_strlit("->");
        assert(tokens_view(tokens@) =~= seq![]);
    }
    while i < chars.len()
        invariant
            s == chars@,
            s == source@,
            0 <= i <= chars.len(),
            current as nat == byte_offset(s, i as int),
            total as nat == utf8_len(s),
            scan(s, 0) == prefixed(tokens_view(tokens@), scan(s, i as int)),
        decreases chars.len() - i,
    {
        let c = chars[i];
        let start = current;
        proof {
            reveal_strlit("let");
            reveal_strlit("in");
            reveal_strlit("infix");
            reveal_strlit("->");
            lemma_byte_offset_monotone(s, i as int + 1, s.len() as int);
        }
        if is_whitespace(c) {
            let next = current + char_width(c);
            if c == '\n' {
                let t = Token { kind: TokenKind::NewLine, span: Span::new(start, next) };
                proof {
                    assert(scan(s, i as int) == cons(t@, scan(s, i + 1)));
                    lemma_prefixed_cons(tokens_view(tokens@), t@, scan(s, i + 1));
                }
                let ghost before = tokens@;
                tokens.push(t);
                proof {
                    assert(tokens_view(tokens@) =~= tokens_view(before).push(t@));
                }
            }
            proof {
                if c != '\n' {
                    assert(scan(s, i as int) == scan(s, i + 1));
                }
            }
            i = i + 1;
            current = next;
        } else if is_letter(c) || c == '_' {
            let (j, cur) = scan_class_run(&chars, i, 0, current, total);
            let is_let = seq_is(&chars, i, j, "let");
            let is_in = seq_is(&chars, i, j, "in");
            let is_infix = seq_is(&chars, i, j, "infix");
            proof {
                let text = s.subrange(i as int, j as int);
                assert("let"@ =~= seq!['l', 'e', 't']);
                assert("in"@ =~= seq!['i', 'n']);
                assert("infix"@ =~= seq!['i', 'n', 'f', 'i', 'x']);
                assert(is_let == (text == seq!['l', 'e', 't']));
                assert(is_in == (text == seq!['i', 'n']));
                assert(is_infix == (text == seq!['i', 'n', 'f', 'i', 'x']));
            }
            let kind = if is_let {
                TokenKind::Let
            } else if is_in {
                TokenKind::In
            } else if is_infix {
                TokenKind::Infix
            } else {
                TokenKind::Identifier(substring(&chars, i, j))
            };
            let t = Token { kind, span: Span::new(start, cur) };
            proof {
                assert(t@.start == byte_offset(s, i as int));
                assert(t@.end == byte_offset(s, j as int));
                assert(t@.kind == keyword_or_ident(s.subrange(i as int, j as int)));
                assert(t@ == tok(keyword_or_ident(s.subrange(i as int, j as int)), s, i as int, j as int));
                assert(scan(s, i as int) == scan_run(s, i as int, Class::Ident));
                assert(scan(s, i as int) == cons(t@, scan(s, j as int)));
                lemma_prefixed_cons(tokens_view(tokens@), t@, scan(s, j as int));
            }
            let ghost before = tokens@;
            tokens.push(t);
            proof {
                assert(tokens_view(tokens@) =~= tokens_view(before).push(t@));
            }
            i = j;
            current = cur;
        } else if c == '"' {
            let mut j = i + 1;
            let mut cur = current + char_width(c);
            while j < chars.len() && chars[j] != '"'
                invariant
                    s == chars@,
                    i < j <= chars.len(),
                    quote_at_or_after(s, j as int) == quote_at_or_after(s, i + 1),
                    cur as nat == byte_offset(s, j as int),
                    total as nat == utf8_len(s),
                decreases chars.len() - j,
            {
                proof {
                    lemma_byte_offset_monotone(s, j as int + 1, s.len() as int);
                }
                cur = cur + char_width(chars[j]);
                j = j + 1;
            }
            if j >= chars.len() {
                let err = Diagnostics::parser_error(
                    message("expected '\"', found EOF"),
                    Span::new(start, cur),
                );
                proof {
                    assert(scan(s, i as int) == ScanOutcome::Unterminated(
                        byte_offset(s, i as int) as int,
                        byte_offset(s, s.len() as int) as int,
                    ));
                }
                return Err(err);
            }
            let text = substring(&chars, i + 1, j);
            proof {
                lemma_byte_offset_monotone(s, j as int + 1, s.len() as int);
            }
            let end = cur + char_width(chars[j]);
            let t = Token { kind: TokenKind::String(text), span: Span::new(start, end) };
            proof {
                assert(scan(s, i as int) == cons(t@, scan(s, j + 1)));
                lemma_prefixed_cons(tokens_view(tokens@), t@, scan(s, j + 1));
            }
            let ghost before = tokens@;
            tokens.push(t);
            proof {
                assert(tokens_view(tokens@) =~= tokens_view(before).push(t@));
            }
            i = j + 1;
            current = end;
        } else if is_digit(c) {
            let (j, cur) = scan_class_run(&chars, i, 1, current, total);
            proof {
                lemma_run_class_all(s, i as int, Class::Digit);
                assert(in_class(c, Class::Digit));
                assert(j > i);
                assert(scan(s, i as int) == scan_run(s, i as int, Class::Digit));
            }
            let value = digits_to_i32(&chars, i, j);
            match value {
                Some(v) => {
                    let t = Token { kind: TokenKind::Int(v), span: Span::new(start, cur) };
                    proof {
                        assert(scan(s, i as int) == cons(t@, scan(s, j as int)));
                        lemma_prefixed_cons(tokens_view(tokens@), t@, scan(s, j as int));
                    }
                    let ghost before = tokens@;
                    tokens.push(t);
                    proof {
                        assert(tokens_view(tokens@) =~= tokens_view(before).push(t@));
                    }
                    i = j;
                    current = cur;
                },
                None => {
                    proof {
                        assert(scan(s, i as int) is IntOverflow);
                    }
                    return Err(Diagnostics::parser_error(message("integer literal overflow"), Span::new(start, cur)));
                },
            }
        } else if c == '(' || c == ')' || c == '=' || c == '\\' {
            let next = current + char_width(c);
            let kind = if c == '(' {
                TokenKind::LeftParen
            } else if c == ')' {
                TokenKind::RightParen
            } else if c == '=' {
                TokenKind::Equal
            } else {
                TokenKind::Lambda
            };
            let t = Token { kind, span: Span::new(start, next) };
            proof {
                assert(scan(s, i as int) == cons(t@, scan(s, i + 1)));
                lemma_prefixed_cons(tokens_view(tokens@), t@, scan(s, i + 1));
            }
            let ghost before = tokens@;
            tokens.push(t);
            proof {
                assert(tokens_view(tokens@) =~= tokens_view(before).push(t@));
            }
            i = i + 1;
            current = next;
        } else {
            let (j, cur) = scan_class_run(&chars, i, 2, current, total);
            let is_arrow = seq_is(&chars, i, j, "->");
            proof {
                assert("->"@ =~= seq!['-', '>']);
                assert(is_arrow == (s.subrange(i as int, j as int) == seq!['-', '>']));
            }
            let kind = if is_arrow {
                TokenKind::Arrow
            } else {
                TokenKind::Symbol(substring(&chars, i, j))
            };
            let t = Token { kind, span: Span::new(start, cur) };
            proof {
                assert(t@ == tok(symbol_kind(s.subrange(i as int, j as int)), s, i as int, j as int));
                assert(scan(s, i as int) == scan_run(s, i as int, Class::Sym));
                assert(scan(s, i as int) == cons(t@, scan(s, j as int)));
                lemma_prefixed_cons(tokens_view(tokens@), t@, scan(s, j as int));
            }
            let ghost before = tokens@;
            tokens.push(t);
            proof {
                assert(tokens_view(tokens@) =~= tokens_view(before).push(t@));
            }
            i = j;
            current = cur;
        }
    }
    proof {
        assert(tokens_view(tokens@) + seq![] =~= tokens_view(tokens@));
    }
    Ok(tokens)
}

proof fn lemma_run_class_all(s: Seq<char>, i: int, class: Class)
    requires
        0 <= i <= s.len(),
    ensures
        forall|k: int| i <= k < run_end(s, i, class) ==> in_class(#[trigger] s[k], class),
    decreases s.len() - i,
{
    if i < s.len() && in_class(s[i], class) {
        lemma_run_class_all(s, i + 1, class);
    }
}

} // verus!
