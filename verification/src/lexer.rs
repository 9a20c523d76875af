//! The scanner of the definition language (`define`, `infix`, `native`,
//! `import`): a deterministic automaton over characters.
//!
//! Whitespace separates tokens. A digit run is an integer, or a number
//! when a `.` and another digit run follow; a letter or `_` starts an
//! identifier (letters, digits, `_` and `'`), which may be a keyword; `"`
//! starts a string with the escapes `\n`, `\t`, `\"` and `\\` (any other
//! escaped character stands for itself); a run of symbol characters is
//! `->`, `=`, `<-`, `>>=` or an operator; `\`, `(`, `)`, `,` and `:` are
//! tokens of their own. Every token records the line and column where it
//! starts, and the stream ends with an end-of-input token.

use vstd::prelude::*;

use crate::text::{
    chars_of, concat, decimal, is_ascii_digit_char, is_ascii_letter, is_digit, is_letter, is_whitespace,
    is_whitespace_char, owned, string_from_chars, substring, usize_to_decimal,
};
use crate::tokenizer::{digits_value, lemma_digits_prefix_bound, lemma_digits_value_push};

verus! {

/// A token.
#[derive(Debug, PartialEq)]
pub enum Token {
    Import,
    Define,
    Infix,
    Var,
    Native,
    Int(i64),
    /// A number literal, as written.
    Float(String),
    Str(String),
    Ident(String),
    /// A user-declared operator.
    Op(String),
    Backslash,
    Arrow,
    Equal,
    Bind,
    BindChain,
    LParen,
    RParen,
    Comma,
    Colon,
    Eof,
}

/// A token with the line and column where it starts.
#[derive(Debug)]
pub struct Spanned {
    pub token: Token,
    pub line: usize,
    pub col: usize,
}

/// What a token is, with its texts as character sequences.
pub enum TokenModel {
    Import,
    Define,
    Infix,
    Var,
    Native,
    Int(int),
    Float(Seq<char>),
    Str(Seq<char>),
    Ident(Seq<char>),
    Op(Seq<char>),
    Backslash,
    Arrow,
    Equal,
    Bind,
    BindChain,
    LParen,
    RParen,
    Comma,
    Colon,
    Eof,
}

pub struct SpannedModel {
    pub token: TokenModel,
    pub line: int,
    pub col: int,
}

impl View for Token {
    type V = TokenModel;

    open spec fn view(&self) -> TokenModel {
        match self {
            Token::Import => TokenModel::Import,
            Token::Define => TokenModel::Define,
            Token::Infix => TokenModel::Infix,
            Token::Var => TokenModel::Var,
            Token::Native => TokenModel::Native,
            Token::Int(n) => TokenModel::Int(*n as int),
            Token::Float(t) => TokenModel::Float(t@),
            Token::Str(t) => TokenModel::Str(t@),
            Token::Ident(t) => TokenModel::Ident(t@),
            Token::Op(t) => TokenModel::Op(t@),
            Token::Backslash => TokenModel::Backslash,
            Token::Arrow => TokenModel::Arrow,
            Token::Equal => TokenModel::Equal,
            Token::Bind => TokenModel::Bind,
            Token::BindChain => TokenModel::BindChain,
            Token::LParen => TokenModel::LParen,
            Token::RParen => TokenModel::RParen,
            Token::Comma => TokenModel::Comma,
            Token::Colon => TokenModel::Colon,
            Token::Eof => TokenModel::Eof,
        }
    }
}

impl View for Spanned {
    type V = SpannedModel;

    open spec fn view(&self) -> SpannedModel {
        SpannedModel { token: self.token@, line: self.line as int, col: self.col as int }
    }
}

pub open spec fn spanned_view(ts: Seq<Spanned>) -> Seq<SpannedModel> {
    ts.map_values(|t: Spanned| t@)
}

pub open spec fn is_ident_start(c: char) -> bool {
    is_ascii_letter(c) || c == '_'
}

pub open spec fn is_ident_cont(c: char) -> bool {
    is_ascii_letter(c) || is_ascii_digit_char(c) || c == '_' || c == '\''
}

pub open spec fn is_symbol(c: char) -> bool {
    c == '!' || c == '$' || c == '%' || c == '&' || c == '*' || c == '+' || c == '-' || c == '.'
        || c == '/' || c == '<' || c == '>' || c == '?' || c == '@' || c == '^' || c == '|' || c == '~'
        || c == '='
}

pub enum CharClass {
    Digit,
    Symbol,
}

pub open spec fn in_char_class(c: char, class: CharClass) -> bool {
    match class {
        CharClass::Digit => is_ascii_digit_char(c),
        CharClass::Symbol => is_symbol(c),
    }
}

/// The end of the maximal run of `class` characters from `i`.
pub open spec fn class_run_end(s: Seq<char>, i: int, class: CharClass) -> int
    decreases s.len() - i,
{
    if 0 <= i < s.len() && in_char_class(s[i], class) {
        class_run_end(s, i + 1, class)
    } else {
        i
    }
}

/// The end of the identifier that continues at `i`: identifier characters,
/// and `::` pairs, which join its parts into one name.
pub open spec fn ident_end(s: Seq<char>, i: int) -> int
    decreases s.len() - i,
{
    if 0 <= i < s.len() && is_ident_cont(s[i]) {
        ident_end(s, i + 1)
    } else if 0 <= i && i + 1 < s.len() && s[i] == ':' && s[i + 1] == ':' {
        ident_end(s, i + 2)
    } else {
        i
    }
}

/// The end of the line comment at `i`: the next line feed, or the end of the text.
pub open spec fn comment_end(s: Seq<char>, i: int) -> int
    decreases s.len() - i,
{
    if 0 <= i < s.len() && s[i] != '\n' {
        comment_end(s, i + 1)
    } else {
        i
    }
}

/// A keyword, or an identifier.
pub open spec fn word_token(text: Seq<char>) -> TokenModel {
    if text == "import"@ {
        TokenModel::Import
    } else if text == "define"@ {
        TokenModel::Define
    } else if text == "infix"@ {
        TokenModel::Infix
    } else if text == "var"@ {
        TokenModel::Var
    } else if text == "native"@ {
        TokenModel::Native
    } else {
        TokenModel::Ident(text)
    }
}

/// Reserved punctuation, or an operator.
pub open spec fn symbol_token(text: Seq<char>) -> TokenModel {
    if text == "->"@ {
        TokenModel::Arrow
    } else if text == "="@ {
        TokenModel::Equal
    } else if text == "<-"@ {
        TokenModel::Bind
    } else if text == ">>="@ {
        TokenModel::BindChain
    } else {
        TokenModel::Op(text)
    }
}

/// The value of an integer literal: its digits' value, or 0 when that
/// does not fit in `i64`.
pub open spec fn int_value(text: Seq<char>) -> int {
    if digits_value(text) <= i64::MAX {
        digits_value(text)
    } else {
        0
    }
}

/// What an escaped character stands for.
pub open spec fn escaped_char(c: char) -> char {
    if c == 'n' {
        '\n'
    } else if c == 't' {
        '\t'
    } else {
        c
    }
}

pub enum StringScan {
    /// The content and the index just past the closing quote.
    Closed(Seq<char>, int),
    Unterminated,
    BadEscape,
}

/// The rest of a string literal from index `k`, with `acc` read so far.
pub open spec fn string_scan(s: Seq<char>, k: int, acc: Seq<char>) -> StringScan
    decreases s.len() - k,
{
    if k < 0 || k >= s.len() {
        StringScan::Unterminated
    } else if s[k] == '"' {
        StringScan::Closed(acc, k + 1)
    } else if s[k] == '\\' {
        if k + 1 >= s.len() {
            StringScan::BadEscape
        } else {
            string_scan(s, k + 2, acc.push(escaped_char(s[k + 1])))
        }
    } else {
        string_scan(s, k + 1, acc.push(s[k]))
    }
}

pub enum LexOutcome {
    Tokens(Seq<SpannedModel>),
    Error(Seq<char>),
}

/// `line:col: ` in front of an error message.
pub open spec fn located(line: int, col: int, msg: Seq<char>) -> Seq<char> {
    decimal(line as nat) + ":"@ + decimal(col as nat) + ": "@ + msg
}

pub open spec fn single_char_token(c: char) -> Option<TokenModel> {
    if c == '\\' {
        Some(TokenModel::Backslash)
    } else if c == '(' {
        Some(TokenModel::LParen)
    } else if c == ')' {
        Some(TokenModel::RParen)
    } else if c == ',' {
        Some(TokenModel::Comma)
    } else if c == ':' {
        Some(TokenModel::Colon)
    } else {
        None
    }
}

/// Scanning `s` from index `i`, at `line` and `col`, after the tokens `acc`.
pub open spec fn lex(s: Seq<char>, i: int, line: int, col: int, acc: Seq<SpannedModel>) -> LexOutcome
    decreases s.len() - i,
{
    if i < 0 || i >= s.len() {
        LexOutcome::Tokens(acc.push(SpannedModel { token: TokenModel::Eof, line, col }))
    } else {
        let c = s[i];
        if is_whitespace_char(c) {
            if c == '\n' {
                lex(s, i + 1, line + 1, 1, acc)
            } else {
                lex(s, i + 1, line, col + 1, acc)
            }
        } else if c == '#' {
            let j = comment_end(s, i);
            if i < j <= s.len() {
                lex(s, j, line, col + (j - i), acc)
            } else {
                LexOutcome::Tokens(acc)
            }
        } else {
            let next = scan_token(s, i);
            match next {
                TokenScan::Token(t, j) => if i < j <= s.len() {
                    lex(s, j, line, col + (j - i), acc.push(SpannedModel { token: t, line, col }))
                } else {
                    LexOutcome::Tokens(acc)
                },
                TokenScan::Unterminated => LexOutcome::Error(located(line, col, "unterminated string literal"@)),
                TokenScan::BadEscape => LexOutcome::Error(located(line, col, "unterminated escape sequence"@)),
                TokenScan::Unexpected => LexOutcome::Error(
                    located(line, col, "unexpected character '"@ + seq![c] + "'"@),
                ),
            }
        }
    }
}

pub enum TokenScan {
    /// The token and the index just past it.
    Token(TokenModel, int),
    Unterminated,
    BadEscape,
    Unexpected,
}

/// The token that starts at `i` (not whitespace).
pub open spec fn scan_token(s: Seq<char>, i: int) -> TokenScan {
    let c = s[i];
    if is_ascii_digit_char(c) {
        let j = class_run_end(s, i, CharClass::Digit);
        if j + 1 < s.len() && s[j] == '.' && is_ascii_digit_char(s[j + 1]) {
            let k = class_run_end(s, j + 1, CharClass::Digit);
            TokenScan::Token(TokenModel::Float(s.subrange(i, k)), k)
        } else {
            TokenScan::Token(TokenModel::Int(int_value(s.subrange(i, j))), j)
        }
    } else if is_ident_start(c) {
        let j = ident_end(s, i);
        TokenScan::Token(word_token(s.subrange(i, j)), j)
    } else if c == '"' {
        match string_scan(s, i + 1, Seq::empty()) {
            StringScan::Closed(content, end) => TokenScan::Token(TokenModel::Str(content), end),
            StringScan::Unterminated => TokenScan::Unterminated,
            StringScan::BadEscape => TokenScan::BadEscape,
        }
    } else if is_symbol(c) {
        let j = class_run_end(s, i, CharClass::Symbol);
        TokenScan::Token(symbol_token(s.subrange(i, j)), j)
    } else {
        match single_char_token(c) {
            Some(t) => TokenScan::Token(t, i + 1),
            None => TokenScan::Unexpected,
        }
    }
}

/// Inside a string literal, a backslash and the character after it stand
/// for one character: `\n` a line feed, `\t` a tab, `\"` a quote, `\\` a
/// backslash; the scan goes on after both.
pub proof fn law_string_escapes(s: Seq<char>, k: int, acc: Seq<char>)
    requires
        0 <= k,
        k + 1 < s.len(),
        s[k] == '\\',
    ensures
        s[k + 1] == 'n' ==> string_scan(s, k, acc) == string_scan(s, k + 2, acc.push('\n')),
        s[k + 1] == 't' ==> string_scan(s, k, acc) == string_scan(s, k + 2, acc.push('\t')),
        s[k + 1] == '"' ==> string_scan(s, k, acc) == string_scan(s, k + 2, acc.push('"')),
        s[k + 1] == '\\' ==> string_scan(s, k, acc) == string_scan(s, k + 2, acc.push('\\')),
{
}

/// A tab escape in a literal gives a literal holding a tab: `"a\tb"`
/// scans to the three characters `a`, tab, `b`, wherever it stands.
pub proof fn law_tab_escape_in_literal(s: Seq<char>, k: int, a: char, b: char)
    requires
        0 <= k,
        k + 6 <= s.len(),
        s[k] == '"',
        s[k + 1] == a,
        s[k + 2] == '\\',
        s[k + 3] == 't',
        s[k + 4] == b,
        s[k + 5] == '"',
        a != '"' && a != '\\',
        b != '"' && b != '\\',
    ensures
        string_scan(s, k + 1, Seq::empty()) == StringScan::Closed(seq![a, '\t', b], k + 6),
{
    let e = Seq::<char>::empty();
    assert(string_scan(s, k + 5, e.push(a).push('\t').push(b)) == StringScan::Closed(e.push(a).push('\t').push(b), k + 6));
    assert(string_scan(s, k + 4, e.push(a).push('\t')) == string_scan(s, k + 5, e.push(a).push('\t').push(b)));
    law_string_escapes(s, k + 2, e.push(a));
    assert(string_scan(s, k + 1, e) == string_scan(s, k + 2, e.push(a)));
    assert(e.push(a).push('\t').push(b) =~= seq![a, '\t', b]);
}

proof fn lemma_class_run_end(s: Seq<char>, i: int, class: CharClass)
    requires
        0 <= i <= s.len(),
    ensures
        i <= class_run_end(s, i, class) <= s.len(),
        forall|k: int| i <= k < class_run_end(s, i, class) ==> in_char_class(#[trigger] s[k], class),
    decreases s.len() - i,
{
    if i < s.len() && in_char_class(s[i], class) {
        lemma_class_run_end(s, i + 1, class);
    }
}

proof fn lemma_string_scan_end(s: Seq<char>, k: int, acc: Seq<char>)
    requires
        0 <= k,
    ensures
        string_scan(s, k, acc) matches StringScan::Closed(_, e) ==> k < e <= s.len(),
    decreases s.len() - k,
{
    if k < s.len() && s[k] != '"' {
        if s[k] == '\\' {
            if k + 1 < s.len() {
                lemma_string_scan_end(s, k + 2, acc.push(escaped_char(s[k + 1])));
            }
        } else {
            lemma_string_scan_end(s, k + 1, acc.push(s[k]));
        }
    }
}

proof fn lemma_ident_end(s: Seq<char>, i: int)
    requires
        0 <= i <= s.len(),
    ensures
        i <= ident_end(s, i) <= s.len(),
    decreases s.len() - i,
{
    if i < s.len() && is_ident_cont(s[i]) {
        lemma_ident_end(s, i + 1);
    } else if i + 1 < s.len() && s[i] == ':' && s[i + 1] == ':' {
        lemma_ident_end(s, i + 2);
    }
}

proof fn lemma_comment_end(s: Seq<char>, i: int)
    requires
        0 <= i <= s.len(),
    ensures
        i <= comment_end(s, i) <= s.len(),
        i < s.len() && s[i] != '\n' ==> i < comment_end(s, i),
    decreases s.len() - i,
{
    if i < s.len() && s[i] != '\n' {
        lemma_comment_end(s, i + 1);
    }
}

/// A scanned token always ends after it starts.
proof fn lemma_scan_token_advances(s: Seq<char>, i: int)
    requires
        0 <= i < s.len(),
    ensures
        scan_token(s, i) matches TokenScan::Token(_, j) ==> i < j <= s.len(),
{
    let c = s[i];
    if is_ascii_digit_char(c) {
        lemma_class_run_end(s, i, CharClass::Digit);
        let j = class_run_end(s, i, CharClass::Digit);
        assert(j > i) by {
            assert(class_run_end(s, i, CharClass::Digit) == class_run_end(s, i + 1, CharClass::Digit));
            lemma_class_run_end(s, i + 1, CharClass::Digit);
        }
        if j + 1 < s.len() && s[j] == '.' && is_ascii_digit_char(s[j + 1]) {
            lemma_class_run_end(s, j + 1, CharClass::Digit);
        }
    } else if is_ident_start(c) {
        lemma_ident_end(s, i + 1);
    } else if c == '"' {
        lemma_string_scan_end(s, i + 1, Seq::empty());
    } else if is_symbol(c) {
        lemma_class_run_end(s, i + 1, CharClass::Symbol);
    }
}

/// A successful scan ends with the end-of-input token.
pub proof fn lemma_lex_ends_with_eof(s: Seq<char>, i: int, line: int, col: int, acc: Seq<SpannedModel>)
    ensures
        lex(s, i, line, col, acc) matches LexOutcome::Tokens(ts) ==> ts.len() > 0 && ts.last().token is Eof,
    decreases s.len() - i,
{
    if 0 <= i < s.len() {
        let c = s[i];
        if is_whitespace_char(c) {
            if c == '\n' {
                lemma_lex_ends_with_eof(s, i + 1, line + 1, 1, acc);
            } else {
                lemma_lex_ends_with_eof(s, i + 1, line, col + 1, acc);
            }
        } else if c == '#' {
            lemma_comment_end(s, i);
            let j = comment_end(s, i);
            lemma_lex_ends_with_eof(s, j, line, col + (j - i), acc);
        } else {
            lemma_scan_token_advances(s, i);
            match scan_token(s, i) {
                TokenScan::Token(t, j) => {
                    lemma_lex_ends_with_eof(s, j, line, col + (j - i), acc.push(SpannedModel { token: t, line, col }));
                },
                _ => {},
            }
        }
    }
}

fn ident_start(c: char) -> (b: bool)
    ensures
        b == is_ident_start(c),
{
    is_letter(c) || c == '_'
}

fn ident_cont(c: char) -> (b: bool)
    ensures
        b == is_ident_cont(c),
{
    is_letter(c) || is_digit(c) || c == '_' || c == '\''
}

fn symbol_char(c: char) -> (b: bool)
    ensures
        b == is_symbol(c),
{
    c == '!' || c == '$' || c == '%' || c == '&' || c == '*' || c == '+' || c == '-' || c == '.'
        || c == '/' || c == '<' || c == '>' || c == '?' || c == '@' || c == '^' || c == '|' || c == '~'
        || c == '='
}

fn run_end_exec(chars: &Vec<char>, i: usize, class: u8) -> (j: usize)
    requires
        i <= chars.len(),
        class < 2,
    ensures
        j == class_run_end(chars@, i as int, class_of(class)),
        i <= j <= chars.len(),
{
    let mut j = i;
    proof {
        lemma_class_run_end(chars@, i as int, class_of(class));
    }
    while j < chars.len() && char_in(chars[j], class)
        invariant
            i <= j <= chars.len(),
            class < 2,
            class_run_end(chars@, j as int, class_of(class)) == class_run_end(chars@, i as int, class_of(class)),
        decreases chars.len() - j,
    {
        j = j + 1;
    }
    j
}

fn char_in(c: char, class: u8) -> (b: bool)
    requires
        class < 2,
    ensures
        b == in_char_class(c, class_of(class)),
{
    if class == 0 {
        is_digit(c)
    } else {
        symbol_char(c)
    }
}

pub open spec fn class_of(class: u8) -> CharClass {
    if class == 0 {
        CharClass::Digit
    } else {
        CharClass::Symbol
    }
}

/// The end of the identifier that continues at `i`.
fn ident_end_exec(chars: &Vec<char>, i: usize) -> (j: usize)
    requires
        i <= chars.len(),
    ensures
        j == ident_end(chars@, i as int),
        i <= j <= chars.len(),
{
    proof {
        lemma_ident_end(chars@, i as int);
    }
    let mut j = i;
    loop
        invariant
            i <= j <= chars.len(),
            ident_end(chars@, j as int) == ident_end(chars@, i as int),
        decreases chars.len() - j,
    {
        if j < chars.len() && ident_cont(chars[j]) {
            j = j + 1;
        } else if chars.len() - j > 1 && chars[j] == ':' && chars[j + 1] == ':' {
            j = j + 2;
        } else {
            return j;
        }
    }
}

/// The end of the line comment at `i`.
fn comment_end_exec(chars: &Vec<char>, i: usize) -> (j: usize)
    requires
        i <= chars.len(),
    ensures
        j == comment_end(chars@, i as int),
{
    let mut j = i;
    while j < chars.len() && chars[j] != '\n'
        invariant
            i <= j <= chars.len(),
            comment_end(chars@, j as int) == comment_end(chars@, i as int),
        decreases chars.len() - j,
    {
        j = j + 1;
    }
    j
}

/// The value of the digits `chars[i..j]`, 0 when it does not fit in `i64`.
fn digits_to_i64(chars: &Vec<char>, i: usize, j: usize) -> (v: i64)
    requires
        i <= j <= chars.len(),
        forall|k: int| i <= k < j ==> is_ascii_digit_char(#[trigger] chars@[k]),
    ensures
        v as int == int_value(chars@.subrange(i as int, j as int)),
{
    let mut acc: i64 = 0;
    let mut k = i;
    while k < j
        invariant
            i <= k <= j <= chars.len(),
            forall|m: int| i <= m < j ==> is_ascii_digit_char(#[trigger] chars@[m]),
            0 <= acc,
            acc as int == digits_value(chars@.subrange(i as int, k as int)),
        decreases j - k,
    {
        let d = (chars[k] as u32 - '0' as u32) as i64;
        proof {
            assert(chars@.subrange(i as int, k as int + 1) =~= chars@.subrange(i as int, k as int).push(
                chars@[k as int],
            ));
            lemma_digits_value_push(chars@.subrange(i as int, k as int), chars@[k as int]);
        }
        if acc > (9223372036854775807i64 - d) / 10 {
            proof {
                assert(acc * 10 + d > i64::MAX) by (nonlinear_arith)
                    requires
                        acc > (9223372036854775807i64 - d) / 10,
                        0 <= d <= 9,
                ;
                lemma_digits_prefix_bound(chars@, i as int, k as int + 1, j as int);
            }
            return 0;
        }
        proof {
            assert(acc * 10 + d <= i64::MAX) by (nonlinear_arith)
                requires
                    0 <= acc <= (9223372036854775807i64 - d) / 10,
                    0 <= d <= 9,
            ;
        }
        acc = acc * 10 + d;
        k = k + 1;
    }
    acc
}

fn chars_are(chars: &Vec<char>, i: usize, j: usize, word: &str) -> (b: bool)
    requires
        i <= j <= chars.len(),
    ensures
        b == (chars@.subrange(i as int, j as int) == word@),
{
    let w = chars_of(word);
    if j - i != w.len() {
        proof {
            assert(chars@.subrange(i as int, j as int).len() != word@.len());
        }
        return false;
    }
    let mut k: usize = 0;
    while k < w.len()
        invariant
            i <= j <= chars.len(),
            j - i == w.len(),
            w@ == word@,
            0 <= k <= w.len(),
            forall|m: int| 0 <= m < k ==> chars@[i + m] == w@[m],
        decreases w.len() - k,
    {
        if chars[i + k] != w[k] {
            proof {
                assert(chars@.subrange(i as int, j as int)[k as int] != word@[k as int]);
            }
            return false;
        }
        k = k + 1;
    }
    assert(chars@.subrange(i as int, j as int) =~= word@);
    true
}

fn word_token_exec(chars: &Vec<char>, i: usize, j: usize) -> (t: Token)
    requires
        i <= j <= chars.len(),
    ensures
        t@ == word_token(chars@.subrange(i as int, j as int)),
{
    if chars_are(chars, i, j, "import") {
        Token::Import
    } else if chars_are(chars, i, j, "define") {
        Token::Define
    } else if chars_are(chars, i, j, "infix") {
        Token::Infix
    } else if chars_are(chars, i, j, "var") {
        Token::Var
    } else if chars_are(chars, i, j, "native") {
        Token::Native
    } else {
        Token::Ident(substring(chars, i, j))
    }
}

fn symbol_token_exec(chars: &Vec<char>, i: usize, j: usize) -> (t: Token)
    requires
        i <= j <= chars.len(),
    ensures
        t@ == symbol_token(chars@.subrange(i as int, j as int)),
{
    if chars_are(chars, i, j, "->") {
        Token::Arrow
    } else if chars_are(chars, i, j, "=") {
        Token::Equal
    } else if chars_are(chars, i, j, "<-") {
        Token::Bind
    } else if chars_are(chars, i, j, ">>=") {
        Token::BindChain
    } else {
        Token::Op(substring(chars, i, j))
    }
}

fn located_exec(line: usize, col: usize, msg: &str) -> (r: String)
    ensures
        r@ == located(line as int, col as int, msg@),
{
    let l = usize_to_decimal(line);
    let c = usize_to_decimal(col);
    concat(&concat(&concat(&concat(&l, ":"), c.as_str()), ": "), msg)
}

/// Scan the string literal whose opening quote is at `start - 1`.
fn scan_string(chars: &Vec<char>, start: usize) -> (r: Result<(String, usize), bool>)
    requires
        start <= chars.len(),
    ensures
        match string_scan(chars@, start as int, Seq::empty()) {
            StringScan::Closed(content, end) => r matches Ok((t, e)) && t@ == content && e == end,
            StringScan::Unterminated => r == Err::<(String, usize), bool>(false),
            StringScan::BadEscape => r == Err::<(String, usize), bool>(true),
        },
{
    let mut content: Vec<char> = Vec::new();
    let mut k = start;
    while k < chars.len() && chars[k] != '"'
        invariant
            start <= k <= chars.len(),
            string_scan(chars@, k as int, content@) == string_scan(chars@, start as int, Seq::empty()),
        decreases chars.len() - k,
    {
        if chars[k] == '\\' {
            if k + 1 >= chars.len() {
                return Err(true);
            }
            let e = chars[k + 1];
            let m = if e == 'n' {
                '\n'
            } else if e == 't' {
                '\t'
            } else {
                e
            };
            content.push(m);
            k = k + 2;
        } else {
            content.push(chars[k]);
            k = k + 1;
        }
    }
    if k >= chars.len() {
        return Err(false);
    }
    Ok((string_from_chars(content.as_slice()), k + 1))
}

/// Run the scanner over `src`: the tokens with their positions, ending with
/// `Eof`, or the first error, as `line:col: message`.
pub fn tokenize(src: &str) -> (r: Result<Vec<Spanned>, String>)
    requires
        src@.len() < usize::MAX,
    ensures
        match lex(src@, 0, 1, 1, Seq::empty()) {
            LexOutcome::Tokens(ts) => r matches Ok(v) && spanned_view(v@) == ts,
            LexOutcome::Error(m) => r matches Err(e) && e@ == m,
        },
{
    let chars = chars_of(src);
    let ghost s = chars@;
    let mut pos: usize = 0;
    let mut line: usize = 1;
    let mut col: usize = 1;
    let mut tokens: Vec<Spanned> = Vec::new();
    proof {
        assert(spanned_view(tokens@) =~= Seq::<SpannedModel>::empty());
    }
    loop
        invariant
            s == chars@,
            s == src@,
            s.len() < usize::MAX,
            pos <= s.len(),
            1 <= line <= pos + 1,
            1 <= col <= pos + 1,
            lex(s, pos as int, line as int, col as int, spanned_view(tokens@)) == lex(s, 0, 1, 1, Seq::empty()),
        decreases s.len() - pos,
    {
        if pos >= chars.len() {
            let ghost before = tokens@;
            tokens.push(Spanned { token: Token::Eof, line, col });
            proof {
                assert(spanned_view(tokens@) =~= spanned_view(before).push(
                    SpannedModel { token: TokenModel::Eof, line: line as int, col: col as int },
                ));
            }
            return Ok(tokens);
        }
        let c = chars[pos];
        if is_whitespace(c) {
            if c == '\n' {
                line = line + 1;
                col = 1;
            } else {
                col = col + 1;
            }
            pos = pos + 1;
        } else if c == '#' {
            proof {
                lemma_comment_end(s, pos as int);
            }
            let j = comment_end_exec(&chars, pos);
            col = col + (j - pos);
            pos = j;
        } else {
            proof {
                lemma_scan_token_advances(s, pos as int);
            }
            let start = pos;
            let token = if is_digit(c) {
                let j = run_end_exec(&chars, pos, 0);
                proof {
                    lemma_class_run_end(s, pos as int, CharClass::Digit);
                }
                if j + 1 < chars.len() && chars[j] == '.' && is_digit(chars[j + 1]) {
                    let k = run_end_exec(&chars, j + 1, 0);
                    pos = k;
                    Token::Float(substring(&chars, start, k))
                } else {
                    pos = j;
                    Token::Int(digits_to_i64(&chars, start, j))
                }
            } else if ident_start(c) {
                let j = ident_end_exec(&chars, pos);
                pos = j;
                word_token_exec(&chars, start, j)
            } else if c == '"' {
                match scan_string(&chars, pos + 1) {
                    Ok((text, end)) => {
                        pos = end;
                        Token::Str(text)
                    },
                    Err(bad_escape) => {
                        if bad_escape {
                            return Err(located_exec(line, col, "unterminated escape sequence"));
                        } else {
                            return Err(located_exec(line, col, "unterminated string literal"));
                        }
                    },
                }
            } else if symbol_char(c) {
                let j = run_end_exec(&chars, pos, 1);
                pos = j;
                symbol_token_exec(&chars, start, j)
            } else if c == '\\' {
                pos = pos + 1;
                Token::Backslash
            } else if c == '(' {
                pos = pos + 1;
                Token::LParen
            } else if c == ')' {
                pos = pos + 1;
                Token::RParen
            } else if c == ',' {
                pos = pos + 1;
                Token::Comma
            } else if c == ':' {
                pos = pos + 1;
                Token::Colon
            } else {
                let shown = string_from_chars(&[c]);
                let m = concat(&concat(&owned("unexpected character '"), shown.as_str()), "'");
                let e = located_exec(line, col, m.as_str());
                proof {
                    assert(m@ =~= "unexpected character '"@ + seq![c] + "'"@);
                }
                return Err(e);
            };
            let ghost before = tokens@;
            let ghost tok_model = token@;
            tokens.push(Spanned { token, line, col });
            proof {
                assert(spanned_view(tokens@) =~= spanned_view(before).push(
                    SpannedModel { token: tok_model, line: line as int, col: col as int },
                ));
            }
            col = col + (pos - start);
        }
    }
}

impl Token {
    /// The token as written in an error message.
    pub fn text(&self) -> (r: String)
        ensures
            r@ == token_text(self@),
    {
        match self {
            Token::Import => owned("import"),
            Token::Define => owned("define"),
            Token::Infix => owned("infix"),
            Token::Var => owned("var"),
            Token::Native => owned("native"),
            Token::Int(n) => crate::text::i64_to_text(*n),
            Token::Float(t) => t.clone(),
            Token::Str(t) => concat(&concat(&owned("\""), t.as_str()), "\""),
            Token::Ident(t) => t.clone(),
            Token::Op(t) => t.clone(),
            Token::Backslash => owned("\\"),
            Token::Arrow => owned("=>"),
            Token::Equal => owned("="),
            Token::Bind => owned("<-"),
            Token::BindChain => owned(">>="),
            Token::LParen => owned("("),
            Token::RParen => owned(")"),
            Token::Comma => owned(","),
            Token::Colon => owned(":"),
            Token::Eof => owned("EOF"),
        }
    }
}

/// The text of a token in error messages. An arrow is written `=>`.
pub open spec fn token_text(t: TokenModel) -> Seq<char> {
    match t {
        TokenModel::Import => "import"@,
        TokenModel::Define => "define"@,
        TokenModel::Infix => "infix"@,
        TokenModel::Var => "var"@,
        TokenModel::Native => "native"@,
        TokenModel::Int(n) => crate::text::int_text(n),
        TokenModel::Float(t) => t,
        TokenModel::Str(t) => "\""@ + t + "\""@,
        TokenModel::Ident(t) => t,
        TokenModel::Op(t) => t,
        TokenModel::Backslash => "\\"@,
        TokenModel::Arrow => "=>"@,
        TokenModel::Equal => "="@,
        TokenModel::Bind => "<-"@,
        TokenModel::BindChain => ">>="@,
        TokenModel::LParen => "("@,
        TokenModel::RParen => ")"@,
        TokenModel::Comma => ","@,
        TokenModel::Colon => ":"@,
        TokenModel::Eof => "EOF"@,
    }
}

} // verus!
