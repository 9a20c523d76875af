//! The Lua back end: lambda-calculus definitions to self-contained Lua source.
//!
//! Each term maps to one Lua construct: an integer or number literal, a
//! quoted string, a renamed variable or a `::` table access, a
//! `function(p) return body end`, or a call `f(a)`. Every top-level
//! definition becomes a thunk `name = function() return body end`, with all
//! names declared up front so definitions may refer forwards.

use vstd::prelude::*;

use crate::names::NameMap;
use crate::ir::{Ir, IrDef};
use crate::text::{
    chars_of, concat, decimal, i64_to_text, int_text, lemma_decimal_injective, owned, str_eq,
    string_from_chars, substring, usize_to_decimal,
};

verus! {

pub open spec fn lua_keywords() -> Seq<Seq<char>> {
    seq![
        "and"@, "break"@, "do"@, "else"@, "elseif"@, "end"@, "false"@, "for"@, "function"@,
        "goto"@, "if"@, "in"@, "local"@, "nil"@, "not"@, "or"@, "repeat"@, "return"@, "then"@,
        "true"@, "until"@, "while"@,
    ]
}

/// The globals the generated runtime uses; definitions are renamed away
/// from them.
pub open spec fn reserved_globals() -> Seq<Seq<char>> {
    seq!["Native"@, "io"@, "math"@, "tostring"@, "error"@]
}

/// The natives the runtime implements itself.
pub open spec fn prelude_natives() -> Seq<Seq<char>> {
    seq!["add"@, "sub"@, "mul"@, "div"@, "print"@]
}

pub open spec fn is_alpha(c: char) -> bool {
    ('a' <= c && c <= 'z') || ('A' <= c && c <= 'Z')
}

pub open spec fn is_alnum(c: char) -> bool {
    is_alpha(c) || ('0' <= c && c <= '9')
}

/// A name that Lua accepts as an identifier as it is.
pub open spec fn valid_lua_name(s: Seq<char>) -> bool {
    &&& s.len() > 0
    &&& (is_alpha(s[0]) || s[0] == '_')
    &&& forall|i: int| 1 <= i < s.len() ==> is_alnum(#[trigger] s[i]) || s[i] == '_'
}

/// A name that can be emitted as it is: a valid identifier, no keyword,
/// and no global of the runtime.
pub open spec fn keeps_spelling(s: Seq<char>) -> bool {
    valid_lua_name(s) && !lua_keywords().contains(s) && !reserved_globals().contains(s)
}

fn seq_eq_str(a: &String, b: &str) -> (r: bool)
    ensures
        r == (a@ == b@),
{
    crate::text::str_eq(a, &b.to_string())
}

fn member(s: &String, list: &[&str]) -> (r: bool)
    ensures
        r == exists|i: int| 0 <= i < list@.len() && list@[i]@ == s@,
{
    let mut i: usize = 0;
    while i < list.len()
        invariant
            i <= list@.len(),
            forall|j: int| 0 <= j < i ==> list@[j]@ != s@,
        decreases list@.len() - i,
    {
        if seq_eq_str(s, list[i]) {
            return true;
        }
        i = i + 1;
    }
    false
}

pub fn is_lua_keyword(s: &str) -> (b: bool)
    ensures
        b == lua_keywords().contains(s@),
{
    let list: [&str; 22] = [
        "and", "break", "do", "else", "elseif", "end", "false", "for", "function", "goto", "if",
        "in", "local", "nil", "not", "or", "repeat", "return", "then", "true", "until", "while",
    ];
    let owned = s.to_string();
    let r = member(&owned, &list);
    proof {
        assert(list@.map_values(|x: &str| x@) =~= lua_keywords()) by {
            reveal_strlit("and");
        }
        if r {
            let i = choose|i: int| 0 <= i < list@.len() && list@[i]@ == owned@;
            assert(lua_keywords()[i] == list@[i]@);
        }
        if lua_keywords().contains(s@) {
            let i = choose|i: int| 0 <= i < lua_keywords().len() && lua_keywords()[i] == s@;
            assert(list@[i]@ == lua_keywords()[i]);
        }
    }
    r
}

pub fn is_reserved_global(s: &str) -> (b: bool)
    ensures
        b == reserved_globals().contains(s@),
{
    let list: [&str; 5] = ["Native", "io", "math", "tostring", "error"];
    let owned = s.to_string();
    let r = member(&owned, &list);
    proof {
        assert(list@.map_values(|x: &str| x@) =~= reserved_globals());
        if r {
            let i = choose|i: int| 0 <= i < list@.len() && list@[i]@ == owned@;
            assert(reserved_globals()[i] == list@[i]@);
        }
        if reserved_globals().contains(s@) {
            let i = choose|i: int| 0 <= i < reserved_globals().len() && reserved_globals()[i] == s@;
            assert(list@[i]@ == reserved_globals()[i]);
        }
    }
    r
}

pub fn is_prelude_native(s: &str) -> (b: bool)
    ensures
        b == prelude_natives().contains(s@),
{
    let list: [&str; 5] = ["add", "sub", "mul", "div", "print"];
    let owned = s.to_string();
    let r = member(&owned, &list);
    proof {
        assert(list@.map_values(|x: &str| x@) =~= prelude_natives());
        if r {
            let i = choose|i: int| 0 <= i < list@.len() && list@[i]@ == owned@;
            assert(prelude_natives()[i] == list@[i]@);
        }
        if prelude_natives().contains(s@) {
            let i = choose|i: int| 0 <= i < prelude_natives().len() && prelude_natives()[i] == s@;
            assert(list@[i]@ == prelude_natives()[i]);
        }
    }
    r
}

pub fn is_ident_start(c: char) -> (b: bool)
    ensures
        b == (is_alpha(c) || c == '_'),
{
    ('a' <= c && c <= 'z') || ('A' <= c && c <= 'Z') || c == '_'
}

pub fn is_ident_cont(c: char) -> (b: bool)
    ensures
        b == (is_alnum(c) || c == '_'),
{
    ('a' <= c && c <= 'z') || ('A' <= c && c <= 'Z') || ('0' <= c && c <= '9') || c == '_'
}

/// A name that can be emitted verbatim as a Lua identifier.
pub fn is_valid_lua_name(s: &str) -> (b: bool)
    ensures
        b == valid_lua_name(s@),
{
    let chars = chars_of(s);
    if chars.len() == 0 || !is_ident_start(chars[0]) {
        return false;
    }
    let mut i: usize = 1;
    while i < chars.len()
        invariant
            1 <= i <= chars@.len(),
            chars@ == s@,
            forall|j: int| 1 <= j < i ==> is_alnum(#[trigger] chars@[j]) || chars@[j] == '_',
        decreases chars@.len() - i,
    {
        if !is_ident_cont(chars[i]) {
            return false;
        }
        i = i + 1;
    }
    true
}

pub fn keeps_spelling_exec(s: &str) -> (b: bool)
    ensures
        b == keeps_spelling(s@),
{
    is_valid_lua_name(s) && !is_lua_keyword(s) && !is_reserved_global(s)
}

pub open spec fn digit_of(d: int) -> char {
    ((d % 10) + 48) as char
}

/// How one character is written inside a Lua string literal.
pub open spec fn escape_char(c: char) -> Seq<char> {
    if c == '"' {
        seq!['\\', '"']
    } else if c == '\\' {
        seq!['\\', '\\']
    } else if c == '\n' {
        seq!['\\', 'n']
    } else if c == '\t' {
        seq!['\\', 't']
    } else if c == '\r' {
        seq!['\\', 'r']
    } else if (c as u32) < 0x20 || (c as u32) == 0x7f {
        let n = c as u32 as int;
        seq!['\\', digit_of(n / 100), digit_of(n / 10), digit_of(n)]
    } else {
        seq![c]
    }
}

pub open spec fn escaped(s: Seq<char>) -> Seq<char>
    decreases s.len(),
{
    if s.len() == 0 {
        Seq::empty()
    } else {
        escaped(s.drop_last()) + escape_char(s.last())
    }
}

/// `s` as a Lua string literal: quoted, with quotes, backslashes and
/// control characters escaped (three-digit escapes, valid from Lua 5.1).
pub open spec fn lua_quoted(s: Seq<char>) -> Seq<char> {
    seq!['"'] + escaped(s) + seq!['"']
}

fn digit(d: u32) -> (c: char)
    requires
        d < 10,
    ensures
        c == digit_of(d as int),
{
    let digits: [char; 10] = ['0', '1', '2', '3', '4', '5', '6', '7', '8', '9'];
    digits[d as usize]
}

fn push_escaped(out: &mut Vec<char>, c: char)
    ensures
        final(out)@ == old(out)@ + escape_char(c),
{
    let ghost start = out@;
    if c == '"' {
        out.push('\\');
        out.push('"');
    } else if c == '\\' {
        out.push('\\');
        out.push('\\');
    } else if c == '\n' {
        out.push('\\');
        out.push('n');
    } else if c == '\t' {
        out.push('\\');
        out.push('t');
    } else if c == '\r' {
        out.push('\\');
        out.push('r');
    } else if (c as u32) < 0x20 || (c as u32) == 0x7f {
        let n = c as u32;
        out.push('\\');
        out.push(digit(n / 100));
        out.push(digit((n / 10) % 10));
        out.push(digit(n % 10));
        proof {
            assert(((n / 10) % 10) as int % 10 == (n as int / 10) % 10);
            assert((n % 10) as int % 10 == n as int % 10);
            assert((n / 100) as int % 10 == (n as int / 100) % 10);
        }
    } else {
        out.push(c);
    }
    proof {
        assert(out@ =~= start + escape_char(c));
    }
}

/// `s` as a Lua string literal (see `lua_quoted`).
pub fn lua_string(s: &str) -> (r: String)
    ensures
        r@ == lua_quoted(s@),
{
    let chars = chars_of(s);
    let mut out: Vec<char> = Vec::new();
    out.push('"');
    let mut i: usize = 0;
    while i < chars.len()
        invariant
            i <= chars@.len(),
            out@ == seq!['"'] + escaped(chars@.subrange(0, i as int)),
        decreases chars@.len() - i,
    {
        proof {
            let pre = chars@.subrange(0, i as int + 1);
            assert(pre.drop_last() =~= chars@.subrange(0, i as int));
            assert(pre.last() == chars@[i as int]);
        }
        push_escaped(&mut out, chars[i]);
        i = i + 1;
    }
    out.push('"');
    proof {
        assert(chars@.subrange(0, chars@.len() as int) =~= s@);
        assert(out@ =~= lua_quoted(s@));
    }
    string_from_chars(out.as_slice())
}

/// A `::` starts at `i`.
pub open spec fn sep_at(s: Seq<char>, i: int) -> bool {
    0 <= i && i + 1 < s.len() && s[i] == ':' && s[i + 1] == ':'
}

/// The first `::` at or after `i`.
pub open spec fn sep_from(s: Seq<char>, i: int) -> Option<int>
    decreases s.len() - i,
{
    if i < 0 || i + 1 >= s.len() {
        None
    } else if sep_at(s, i) {
        Some(i)
    } else {
        sep_from(s, i + 1)
    }
}

/// `s` split at its first `::`.
pub open spec fn split_sep(s: Seq<char>) -> Option<(Seq<char>, Seq<char>)> {
    match sep_from(s, 0) {
        Some(i) => Some((s.subrange(0, i), s.subrange(i + 2, s.len() as int))),
        None => None,
    }
}

/// The pieces of `s` between its `::` separators, left to right.
pub open spec fn segments(s: Seq<char>) -> Seq<Seq<char>>
    decreases s.len(),
{
    match sep_from(s, 0) {
        Some(i) => {
            proof {
                lemma_sep_from_bounds(s, 0);
            }
            seq![s.subrange(0, i)] + segments(s.subrange(i + 2, s.len() as int))
        },
        None => seq![s],
    }
}

pub proof fn lemma_sep_from_bounds(s: Seq<char>, i: int)
    requires
        i >= 0,
    ensures
        sep_from(s, i) matches Some(k) ==> i <= k && sep_at(s, k) && forall|j: int|
            i <= j < k ==> !sep_at(s, j),
        sep_from(s, i) is None ==> forall|j: int| i <= j ==> !sep_at(s, j),
    decreases s.len() - i,
{
    if i < 0 || i + 1 >= s.len() {
    } else if sep_at(s, i) {
    } else {
        lemma_sep_from_bounds(s, i + 1);
    }
}

fn find_sep(chars: &Vec<char>, from: usize) -> (r: Option<usize>)
    requires
        from <= chars@.len(),
    ensures
        r matches Some(k) ==> sep_from(chars@, from as int) == Some(k as int) && k + 2 <= chars@.len(),
        r is None ==> sep_from(chars@, from as int) is None,
{
    proof {
        lemma_sep_from_bounds(chars@, from as int);
    }
    let mut i = from;
    while chars.len() > 1 && i < chars.len() - 1
        invariant
            from <= i <= chars@.len(),
            sep_from(chars@, from as int) == sep_from(chars@, i as int),
        decreases chars@.len() - i,
    {
        if chars[i] == ':' && chars[i + 1] == ':' {
            return Some(i);
        }
        i = i + 1;
    }
    None
}

/// `Some(X)` when `v` is exactly `X::index` with a non-empty `X`.
pub open spec fn index_namespace_of(v: Seq<char>) -> Option<Seq<char>> {
    match split_sep(v) {
        Some((left, right)) => if left.len() > 0 && right == "index"@ {
            Some(left)
        } else {
            None
        },
        None => None,
    }
}

/// The namespace `X` when `v` is exactly `X::index` (the table-index form
/// handled where it is applied).
pub fn index_namespace(v: &str) -> (r: Option<String>)
    ensures
        match index_namespace_of(v@) {
            Some(x) => r matches Some(y) && y@ == x,
            None => r is None,
        },
{
    let chars = chars_of(v);
    match find_sep(&chars, 0) {
        Some(i) => {
            let left = substring(&chars, 0, i);
            let right = substring(&chars, i + 2, chars.len());
            if i > 0 && seq_eq_str(&right, "index") {
                Some(left)
            } else {
                None
            }
        },
        None => None,
    }
}

/// How one segment after a `::` is accessed: `.seg`, or `["seg"]` when it
/// is no usable Lua name.
pub open spec fn segment_access(seg: Seq<char>) -> Seq<char> {
    if valid_lua_name(seg) && !lua_keywords().contains(seg) {
        seq!['.'] + seg
    } else {
        seq!['['] + lua_quoted(seg) + seq![']']
    }
}

pub open spec fn access_chain(segs: Seq<Seq<char>>) -> Seq<char>
    decreases segs.len(),
{
    if segs.len() == 0 {
        Seq::empty()
    } else {
        access_chain(segs.drop_last()) + segment_access(segs.last())
    }
}

/// The field-access chain for the part of a qualified name after its first
/// `::`: `b::c` gives `.b.c`. An empty segment is an error.
pub open spec fn field_access_of(right: Seq<char>) -> Result<Seq<char>, Seq<char>> {
    let segs = segments(right);
    if exists|i: int| 0 <= i < segs.len() && (#[trigger] segs[i]).len() == 0 {
        Err("empty segment in '::"@ + right + "'"@)
    } else {
        Ok(access_chain(segs))
    }
}

fn segment_access_exec(seg: &String) -> (r: String)
    ensures
        r@ == segment_access(seg@),
{
    proof {
        reveal_strlit(".");
        reveal_strlit("[");
        reveal_strlit("]");
    }
    if is_valid_lua_name(seg.as_str()) && !is_lua_keyword(seg.as_str()) {
        concat(&owned("."), seg.as_str())
    } else {
        let q = lua_string(seg.as_str());
        concat(&concat(&owned("["), q.as_str()), "]")
    }
}

proof fn lemma_segments_step(s: Seq<char>, i: int)
    requires
        sep_from(s, 0) == Some(i),
    ensures
        0 <= i && i + 2 <= s.len(),
        segments(s) == seq![s.subrange(0, i)] + segments(s.subrange(i + 2, s.len() as int)),
{
    lemma_sep_from_bounds(s, 0);
}

proof fn lemma_sep_shift(s: Seq<char>, k: int, j: int)
    requires
        0 <= k <= s.len(),
        k <= j,
    ensures
        sep_from(s.subrange(k, s.len() as int), j - k) == (match sep_from(s, j) {
            Some(x) => Some(x - k),
            None => None::<int>,
        }),
    decreases s.len() - j,
{
    let t = s.subrange(k, s.len() as int);
    if j + 1 >= s.len() {
    } else if sep_at(s, j) {
        assert(sep_at(t, j - k));
    } else {
        assert(!sep_at(t, j - k));
        lemma_sep_shift(s, k, j + 1);
    }
}

/// The access chain of `right` (see `field_access_of`).
pub fn field_access(right: &str) -> (r: Result<String, String>)
    ensures
        match field_access_of(right@) {
            Ok(t) => r matches Ok(x) && x@ == t,
            Err(m) => r matches Err(x) && x@ == m,
        },
{
    let chars = chars_of(right);
    let mut out = owned("");
    proof {
        reveal_strlit("");
    }
    let mut start: usize = 0;
    let ghost mut done: Seq<Seq<char>> = Seq::empty();
    proof {
        assert(chars@.subrange(0, chars@.len() as int) =~= chars@);
    }
    loop
        invariant
            start <= chars@.len(),
            chars@ == right@,
            segments(chars@) == done + segments(chars@.subrange(start as int, chars@.len() as int)),
            forall|i: int| 0 <= i < done.len() ==> (#[trigger] done[i]).len() > 0,
            out@ == access_chain(done),
        decreases chars@.len() - start,
    {
        let ghost rest = chars@.subrange(start as int, chars@.len() as int);
        let next = find_sep(&chars, start);
        proof {
            lemma_sep_shift(chars@, start as int, start as int);
        }
        let end = match next {
            Some(k) => k,
            None => chars.len(),
        };
        proof {
            lemma_sep_from_bounds(chars@, start as int);
        }
        let seg = substring(&chars, start, end);
        proof {
            match next {
                Some(k) => {
                    lemma_segments_step(rest, k - start);
                    assert(rest.subrange(0, k - start) =~= seg@);
                    assert(rest.subrange(k - start + 2, rest.len() as int) =~= chars@.subrange(
                        k + 2,
                        chars@.len() as int,
                    ));
                },
                None => {
                    assert(rest =~= seg@);
                },
            }
        }
        if end == start {
            proof {
                let segs = segments(chars@);
                assert(segs[done.len() as int] == seg@);
            }
            let m = concat(&concat(&owned("empty segment in '::"), right), "'");
            return Err(m);
        }
        let piece = segment_access_exec(&seg);
        out = concat(&out, piece.as_str());
        proof {
            assert((done.push(seg@)).drop_last() =~= done);
            done = done.push(seg@);
        }
        match next {
            Some(k) => {
                proof {
                    assert(segments(chars@) == done + segments(chars@.subrange(k + 2, chars@.len() as int)))
                        by {
                        assert(seq![seg@] + segments(chars@.subrange(k + 2, chars@.len() as int))
                            == segments(rest));
                        assert(done.drop_last() + seq![seg@] =~= done);
                    }
                }
                start = k + 2;
            },
            None => {
                proof {
                    assert(segments(rest) == seq![seg@]);
                    assert(segments(chars@) =~= done);
                    assert forall|i: int| 0 <= i < segments(chars@).len() implies (#[trigger] segments(
                        chars@,
                    )[i]).len() > 0 by {
                        assert(segments(chars@)[i] == done[i]);
                    }
                }
                return Ok(out);
            },
        }
    }
}

/// How the runtime's `Native` table entry of `name` is written.
pub open spec fn native_target(name: Seq<char>) -> Seq<char> {
    if valid_lua_name(name) && !lua_keywords().contains(name) {
        "Native."@ + name
    } else {
        "Native["@ + lua_quoted(name) + "]"@
    }
}

/// `a1, a2, ..., an`.
pub open spec fn arg_list(n: nat) -> Seq<char>
    decreases n,
{
    if n == 0 {
        Seq::empty()
    } else if n == 1 {
        "a1"@
    } else {
        arg_list((n - 1) as nat) + ", a"@ + decimal(n)
    }
}

/// `function(ai) return ... function(an) return body end ... end`.
pub open spec fn curried_lua(i: nat, n: nat, body: Seq<char>) -> Seq<char>
    decreases n + 1 - i,
{
    if i > n || i == 0 {
        body
    } else {
        "function(a"@ + decimal(i) + ") return "@ + curried_lua(i + 1, n, body) + " end"@
    }
}

/// The value a native of `arity` parameters is bound to: a curried
/// function calling the runtime, or for no parameters the runtime's
/// value itself.
pub open spec fn native_body_of(name: Seq<char>, arity: nat) -> Seq<char> {
    let call = native_target(name) + "("@ + arg_list(arity) + ")"@;
    if arity == 0 {
        call
    } else {
        curried_lua(1, arity, call)
    }
}

pub fn native_call_target(name: &str) -> (r: String)
    ensures
        r@ == native_target(name@),
{
    if is_valid_lua_name(name) && !is_lua_keyword(name) {
        concat(&owned("Native."), name)
    } else {
        let q = lua_string(name);
        concat(&concat(&owned("Native["), q.as_str()), "]")
    }
}

fn arg_list_exec(n: u32) -> (r: String)
    ensures
        r@ == arg_list(n as nat),
{
    let mut out = owned("");
    proof {
        reveal_strlit("");
    }
    let mut i: u32 = 0;
    while i < n
        invariant
            i <= n,
            out@ == arg_list(i as nat),
        decreases n - i,
    {
        i = i + 1;
        if i == 1 {
            out = owned("a1");
        } else {
            let d = usize_to_decimal(i as usize);
            out = concat(&concat(&out, ", a"), d.as_str());
        }
    }
    out
}

proof fn lemma_curried_step(i: nat, n: nat, body: Seq<char>)
    requires
        1 <= i <= n,
    ensures
        curried_lua(i, n, body) == "function(a"@ + decimal(i) + ") return "@ + curried_lua(i + 1, n, body) + " end"@,
{
}

pub fn native_body(name: &str, arity: u32) -> (r: String)
    ensures
        r@ == native_body_of(name@, arity as nat),
{
    let target = native_call_target(name);
    let args = arg_list_exec(arity);
    let call = concat(&concat(&concat(&target, "("), args.as_str()), ")");
    if arity == 0 {
        call
    } else {
        let mut body = call.clone();
        let mut i: u32 = arity;
        proof {
            assert(curried_lua((arity + 1) as nat, arity as nat, call@) == call@);
        }
        while i > 0
            invariant
                i <= arity,
                arity > 0,
                body@ == curried_lua((i + 1) as nat, arity as nat, call@),
            decreases i,
        {
            let d = usize_to_decimal(i as usize);
            let ghost before = body@;
            body = concat(
                &concat(&concat(&concat(&owned("function(a"), d.as_str()), ") return "), before_text(&body)),
                " end",
            );
            proof {
                lemma_curried_step(i as nat, arity as nat, call@);
            }
            i = i - 1;
        }
        body
    }
}

fn before_text(s: &String) -> (r: &str)
    ensures
        r@ == s@,
{
    s.as_str()
}

/// The runtime entry of an unknown native: an error when called, so a
/// host can still provide it.
pub open spec fn native_stub_of(name: Seq<char>) -> Seq<char> {
    "Native["@ + lua_quoted(name) + "] = function(...) error("@ + lua_quoted(
        "unknown native '"@ + name + "'"@,
    ) + ") end\n"@
}

pub fn native_stub(name: &str) -> (r: String)
    ensures
        r@ == native_stub_of(name@),
{
    let q = lua_string(name);
    let msg = concat(&concat(&owned("unknown native '"), name), "'");
    let qm = lua_string(msg.as_str());
    let a = concat(&concat(&owned("Native["), q.as_str()), "] = function(...) error(");
    concat(&concat(&a, qm.as_str()), ") end\n")
}

/// `lua_name = <native body>` and a newline.
pub fn native_wrapper(lua_name: &str, original: &str, arity: u32) -> (r: String)
    ensures
        r@ == lua_name@ + " = "@ + native_body_of(original@, arity as nat) + "\n"@,
{
    let body = native_body(original, arity);
    concat(&concat(&concat(&owned(lua_name), " = "), body.as_str()), "\n")
}

/// The runtime every generated file starts with: the `Native` table with
/// the prelude natives and the table factory.
pub open spec fn preamble_text() -> Seq<char> {
    "-- Native runtime: prelude natives (mirrors GraftVM main.rs)\n"@ + "local Native = {}\n"@
        + "Native.add = function(a, b) return a + b end\n"@
        + "Native.sub = function(a, b) return a - b end\n"@
        + "Native.mul = function(a, b) return a * b end\n"@
        + "Native.div = function(a, b) return math.floor(a / b) end\n"@
        + "Native.print = function(a) io.write(tostring(a), \"\\n\") return a end\n"@
        + "Native.table = function() return { foo = 42, cat = 7 } end\n"@
}

pub fn preamble() -> (r: String)
    ensures
        r@ == preamble_text(),
{
    let mut s = owned("-- Native runtime: prelude natives (mirrors GraftVM main.rs)\n");
    s = concat(&s, "local Native = {}\n");
    s = concat(&s, "Native.add = function(a, b) return a + b end\n");
    s = concat(&s, "Native.sub = function(a, b) return a - b end\n");
    s = concat(&s, "Native.mul = function(a, b) return a * b end\n");
    s = concat(&s, "Native.div = function(a, b) return math.floor(a / b) end\n");
    s = concat(&s, "Native.print = function(a) io.write(tostring(a), \"\\n\") return a end\n");
    s = concat(&s, "Native.table = function() return { foo = 42, cat = 7 } end\n");
    s
}

/// The stem a name is mangled from: primes become `p`; a stem that does
/// not start with a letter gets `v_` in front, a keyword gets `k_`.
pub open spec fn mangle_base(name: Seq<char>) -> Seq<char> {
    let base = name.map_values(|c: char| if c == '\'' { 'p' } else { c });
    if base.len() == 0 || !is_alpha(base[0]) {
        "v_"@ + base
    } else if lua_keywords().contains(base) {
        "k_"@ + base
    } else {
        base
    }
}

/// The `k`-th mangled name of a stem.
pub open spec fn candidate(base: Seq<char>, k: nat) -> Seq<char> {
    base + "_"@ + decimal(k)
}

proof fn lemma_candidate_injective(base: Seq<char>, a: nat, b: nat)
    requires
        candidate(base, a) == candidate(base, b),
    ensures
        a == b,
{
    let p = base + "_"@;
    let ca = candidate(base, a);
    let cb = candidate(base, b);
    assert(ca.subrange(p.len() as int, ca.len() as int) =~= decimal(a));
    assert(cb.subrange(p.len() as int, cb.len() as int) =~= decimal(b));
    lemma_decimal_injective(a, b);
}

fn mangle_base_exec(name: &str) -> (r: String)
    ensures
        r@ == mangle_base(name@),
{
    let chars = chars_of(name);
    let mut out: Vec<char> = Vec::new();
    let mut i: usize = 0;
    while i < chars.len()
        invariant
            i <= chars@.len(),
            chars@ == name@,
            out@ == chars@.subrange(0, i as int).map_values(|c: char| if c == '\'' { 'p' } else { c }),
        decreases chars@.len() - i,
    {
        let c = chars[i];
        out.push(if c == '\'' { 'p' } else { c });
        proof {
            assert(out@ =~= chars@.subrange(0, i as int + 1).map_values(
                |c: char| if c == '\'' { 'p' } else { c },
            ));
        }
        i = i + 1;
    }
    proof {
        assert(chars@.subrange(0, chars@.len() as int) =~= chars@);
    }
    let base = string_from_chars(out.as_slice());
    if out.len() == 0 || !(('a' <= out[0] && out[0] <= 'z') || ('A' <= out[0] && out[0] <= 'Z')) {
        concat(&owned("v_"), base.as_str())
    } else if is_lua_keyword(base.as_str()) {
        concat(&owned("k_"), base.as_str())
    } else {
        base
    }
}

/// The names a translation unit hands out: a stack of scopes from
/// original names to Lua names (top-level definitions in the bottom one),
/// every Lua name handed out so far, and the counter for mangled names.
pub struct Env {
    scopes: Vec<NameMap>,
    used: Vec<String>,
    mangled: Vec<String>,
    counter: usize,
}

impl Env {
    /// Every Lua name handed out so far.
    pub closed spec fn used_names(&self) -> Set<Seq<char>> {
        self.used@.map_values(|s: String| s@).to_set()
    }

    pub closed spec fn scope_maps(&self) -> Seq<Map<Seq<char>, Seq<char>>> {
        self.scopes@.map_values(|m: NameMap| m@)
    }

    /// No name has been handed out yet.
    pub closed spec fn is_fresh(&self) -> bool {
        &&& self.used@.len() == 0
        &&& self.mangled@.len() == 0
        &&& self.counter == 0
    }

    /// `self` has handed out the names that `other` has, and its counter.
    pub closed spec fn names_kept(&self, other: Env) -> bool {
        &&& self.used == other.used
        &&& self.mangled == other.mangled
        &&& self.counter == other.counter
    }

    /// The mangled names handed out so far.
    pub closed spec fn mangled_names(&self) -> Set<Seq<char>> {
        self.mangled@.map_values(|s: String| s@).to_set()
    }

    /// Whether `name` keeps its spelling: a valid, non-reserved Lua name
    /// that no mangled name handed out so far already spells.
    pub open spec fn keeps_name(&self, name: Seq<char>) -> bool {
        keeps_spelling(name) && !self.mangled_names().contains(name)
    }

    /// `out` is what a request of `name` gives in `before`, leaving `after`.
    pub open spec fn fresh_step(before: Env, name: Seq<char>, out: Seq<char>, after: Env) -> bool {
        &&& after.used_names() == before.used_names().insert(out)
        &&& before.keeps_name(name) ==> out == name && after.mangled_names() == before.mangled_names()
        &&& !before.keeps_name(name) ==> !before.used_names().contains(out) && (exists|k: nat|
            out == candidate(mangle_base(name), k)) && after.mangled_names() == before.mangled_names().insert(out)
    }

    pub closed spec fn wf(&self) -> bool {
        &&& self.scopes@.len() >= 1
        &&& forall|i: int| 0 <= i < self.scopes@.len() ==> (#[trigger] self.scopes@[i]).wf()
    }

    pub fn new() -> (e: Self)
        ensures
            e.wf(),
            e.used_names() == Set::<Seq<char>>::empty(),
            e.mangled_names() == Set::<Seq<char>>::empty(),
            e.scope_maps() == seq![Map::<Seq<char>, Seq<char>>::empty()],
            e.is_fresh(),
    {
        let mut scopes: Vec<NameMap> = Vec::new();
        scopes.push(NameMap::new());
        let e = Env { scopes, used: Vec::new(), mangled: Vec::new(), counter: 0 };
        proof {
            assert(e.used_names() =~= Set::<Seq<char>>::empty());
            assert(e.mangled_names() =~= Set::<Seq<char>>::empty());
            assert(e.scope_maps() =~= seq![Map::<Seq<char>, Seq<char>>::empty()]);
        }
        e
    }

    fn is_used(&self, s: &String) -> (b: bool)
        ensures
            b == self.used_names().contains(s@),
    {
        let mut i: usize = 0;
        while i < self.used.len()
            invariant
                i <= self.used@.len(),
                forall|j: int| 0 <= j < i ==> self.used@[j]@ != s@,
            decreases self.used@.len() - i,
        {
            if str_eq(&self.used[i], s) {
                proof {
                    assert(self.used@.map_values(|s: String| s@)[i as int] == s@);
                }
                return true;
            }
            i = i + 1;
        }
        proof {
            if self.used_names().contains(s@) {
                let m = self.used@.map_values(|s: String| s@);
                let k = choose|k: int| 0 <= k < m.len() && #[trigger] m[k] == s@;
                assert(self.used@[k]@ == s@);
            }
        }
        false
    }

    fn mark_used(&mut self, s: String)
        ensures
            final(self).used_names() == old(self).used_names().insert(s@),
            final(self).scopes == old(self).scopes,
            final(self).counter == old(self).counter,
            final(self).mangled == old(self).mangled,
    {
        self.used.push(s);
        proof {
            let before = old(self).used@.map_values(|s: String| s@);
            let after = self.used@.map_values(|s: String| s@);
            assert(after =~= before.push(s@));
            assert(after.to_set() =~= before.to_set().insert(s@)) by {
                assert forall|x: Seq<char>| after.to_set().contains(x) <==> before.to_set().insert(s@).contains(x) by {
                    if after.to_set().contains(x) && x != s@ {
                        let k = choose|k: int| 0 <= k < after.len() && after[k] == x;
                        assert(before[k] == x);
                    }
                    if before.to_set().contains(x) {
                        let k = choose|k: int| 0 <= k < before.len() && before[k] == x;
                        assert(after[k] == x);
                    }
                    if x == s@ {
                        assert(after[before.len() as int] == x);
                    }
                }
            }
        }
    }

    /// A Lua name for `name`. A valid, non-reserved name keeps its spelling
    /// (so Lua's scoping mirrors shadowing), unless a mangled name already
    /// spells it; any other gets a mangled name never handed out before.
    /// The counter running out is an error.
    pub fn fresh_name(&mut self, name: &str) -> (r: Result<String, String>)
        ensures
            final(self).scope_maps() == old(self).scope_maps(),
            final(self).wf() == old(self).wf(),
            r matches Ok(s) ==> Self::fresh_step(*old(self), name@, s@, *final(self)),
            r matches Ok(s) ==> final(self).used_names() == old(self).used_names().insert(s@),
            old(self).keeps_name(name@) ==> (r matches Ok(s) && s@ == name@),
            r matches Ok(s) ==> (!old(self).keeps_name(name@) ==> !old(self).used_names().contains(s@)
                && exists|k: nat| s@ == candidate(mangle_base(name@), k)),
            r is Err ==> !old(self).keeps_name(name@) && final(self).used_names() == old(self).used_names()
                && final(self).mangled_names() == old(self).mangled_names(),
    {
        let owned_name = owned(name);
        let was_mangled = contains_string(&self.mangled, &owned_name);
        proof {
            let m = self.mangled@.map_values(|s: String| s@);
            if was_mangled {
                let i = choose|i: int| 0 <= i < self.mangled@.len() && (#[trigger] self.mangled@[i])@ == name@;
                assert(m[i] == name@);
            }
            if self.mangled_names().contains(name@) {
                let i = choose|i: int| 0 <= i < m.len() && m[i] == name@;
                assert(self.mangled@[i]@ == name@);
            }
        }
        if keeps_spelling_exec(name) && !was_mangled {
            let s = owned(name);
            self.mark_used(s.clone());
            return Ok(s);
        }
        let base = mangle_base_exec(name);
        let ghost used0 = self.used_names();
        let ghost start = self.counter;
        let ghost mut tried: Set<Seq<char>> = Set::empty();
        proof {
            self.used@.map_values(|s: String| s@).lemma_cardinality_of_set();
        }
        loop
            invariant
                self.used_names() == used0,
                used0 == old(self).used_names(),
                !old(self).keeps_name(name@),
                self.mangled == old(self).mangled,
                self.scopes == old(self).scopes,
                self.used@ == old(self).used@,
                base@ == mangle_base(name@),
                start <= self.counter,
                tried.finite(),
                tried.len() == self.counter - start,
                tried.subset_of(used0),
                used0.finite(),
                used0.len() <= self.used@.len(),
                forall|x: Seq<char>|
                    #[trigger] tried.contains(x) ==> exists|k: nat| start <= k < self.counter && x == candidate(base@, k),
            decreases self.used@.len() - (self.counter - start),
        {
            proof {
                vstd::set_lib::lemma_len_subset(tried, used0);
            }
            if self.counter == usize::MAX {
                return Err(owned("parlance_lua: name counter exhausted"));
            }
            let d = usize_to_decimal(self.counter);
            let c = concat(&concat(&base, "_"), d.as_str());
            let ghost k = self.counter as nat;
            self.counter = self.counter + 1;
            if !self.is_used(&c) {
                proof {
                    assert(c@ == candidate(mangle_base(name@), k));
                }
                self.mark_used(c.clone());
                let ghost before = self.mangled@;
                self.mangled.push(c.clone());
                proof {
                    let b = before.map_values(|s: String| s@);
                    let a = self.mangled@.map_values(|s: String| s@);
                    assert(a =~= b.push(c@));
                    assert(a.to_set() =~= b.to_set().insert(c@)) by {
                        assert forall|x: Seq<char>| a.to_set().contains(x) <==> b.to_set().insert(c@).contains(x) by {
                            if a.to_set().contains(x) && x != c@ {
                                let j = choose|j: int| 0 <= j < a.len() && a[j] == x;
                                assert(b[j] == x);
                            }
                            if b.to_set().contains(x) {
                                let j = choose|j: int| 0 <= j < b.len() && b[j] == x;
                                assert(a[j] == x);
                            }
                            if x == c@ {
                                assert(a[b.len() as int] == x);
                            }
                        }
                    }
                }
                return Ok(c);
            }
            proof {
                assert(c@ == candidate(base@, k));
                assert(!tried.contains(c@)) by {
                    if tried.contains(c@) {
                        let j = choose|j: nat| start <= j < k && c@ == candidate(base@, j);
                        lemma_candidate_injective(base@, j, k);
                    }
                }
                tried = tried.insert(c@);
                vstd::set_lib::lemma_len_subset(tried, used0);
                assert forall|x: Seq<char>| #[trigger] tried.contains(x) implies exists|j: nat|
                    start <= j < self.counter && x == candidate(base@, j) by {
                    if x == c@ {
                        assert(start <= k < self.counter && x == candidate(base@, k));
                    }
                }
            }
        }
    }

    /// The Lua name `name` has in `maps`, innermost scope first.
    pub open spec fn lookup_in(maps: Seq<Map<Seq<char>, Seq<char>>>, name: Seq<char>) -> Option<Seq<char>>
        decreases maps.len(),
    {
        if maps.len() == 0 {
            None
        } else if maps.last().contains_key(name) {
            Some(maps.last()[name])
        } else {
            Self::lookup_in(maps.drop_last(), name)
        }
    }

    /// The Lua name of `name`, innermost scope first.
    pub fn lookup(&self, name: &str) -> (r: Option<String>)
        requires
            self.wf(),
        ensures
            match Self::lookup_in(self.scope_maps(), name@) {
                Some(l) => r matches Some(x) && x@ == l,
                None => r is None,
            },
    {
        let key = owned(name);
        let mut i = self.scopes.len();
        proof {
            assert(self.scope_maps().subrange(0, i as int) =~= self.scope_maps());
        }
        while i > 0
            invariant
                i <= self.scopes@.len(),
                self.wf(),
                key@ == name@,
                Self::lookup_in(self.scope_maps(), name@) == Self::lookup_in(
                    self.scope_maps().subrange(0, i as int),
                    name@,
                ),
            decreases i,
        {
            let ghost pre = self.scope_maps().subrange(0, i as int);
            proof {
                assert(pre.drop_last() =~= self.scope_maps().subrange(0, i as int - 1));
                assert(pre.last() == self.scopes@[i as int - 1]@);
            }
            match self.scopes[i - 1].get(&key) {
                Some(l) => {
                    return Some(l.clone());
                },
                None => {},
            }
            i = i - 1;
        }
        None
    }

    /// Registers a top-level definition; returns its Lua name.
    pub fn define(&mut self, name: &str) -> (r: Result<String, String>)
        requires
            old(self).wf(),
        ensures
            final(self).wf(),
            final(self).scope_maps().len() == old(self).scope_maps().len(),
            r matches Ok(l) ==> final(self).scope_maps() == old(self).scope_maps().update(
                0,
                old(self).scope_maps()[0].insert(name@, l@),
            ) && final(self).used_names() == old(self).used_names().insert(l@),
            r is Err ==> final(self).scope_maps() == old(self).scope_maps(),
            old(self).keeps_name(name@) ==> (r matches Ok(l) && l@ == name@),
            r matches Ok(l) ==> (!old(self).keeps_name(name@) ==> !old(self).used_names().contains(l@) && exists|k: nat|
                l@ == candidate(mangle_base(name@), k)),
            r is Err ==> final(self).used_names() == old(self).used_names(),
            r matches Ok(l) ==> Self::fresh_step(*old(self), name@, l@, *final(self)),
    {
        let lua = self.fresh_name(name)?;
        let mut bottom = self.scopes[0].clone_map();
        bottom.insert(owned(name), lua.clone());
        self.scopes.set(0, bottom);
        proof {
            assert(self.scope_maps() =~= old(self).scope_maps().update(
                0,
                old(self).scope_maps()[0].insert(name@, lua@),
            ));
        }
        Ok(lua)
    }

    /// Opens a scope that binds `name` (a parameter); returns its Lua name.
    pub fn push_bind(&mut self, name: &str) -> (r: Result<String, String>)
        requires
            old(self).wf(),
        ensures
            final(self).wf(),
            r matches Ok(l) ==> final(self).scope_maps() == old(self).scope_maps().push(
                Map::<Seq<char>, Seq<char>>::empty().insert(name@, l@),
            ) && final(self).used_names() == old(self).used_names().insert(l@),
            r is Err ==> final(self).scope_maps() == old(self).scope_maps(),
            old(self).keeps_name(name@) ==> (r matches Ok(l) && l@ == name@),
            r matches Ok(l) ==> (!old(self).keeps_name(name@) ==> !old(self).used_names().contains(l@) && exists|k: nat|
                l@ == candidate(mangle_base(name@), k)),
            r is Err ==> final(self).used_names() == old(self).used_names(),
            r matches Ok(l) ==> Self::fresh_step(*old(self), name@, l@, *final(self)),
    {
        let lua = self.fresh_name(name)?;
        let mut scope = NameMap::new();
        scope.insert(owned(name), lua.clone());
        self.scopes.push(scope);
        proof {
            assert(self.scope_maps() =~= old(self).scope_maps().push(
                Map::<Seq<char>, Seq<char>>::empty().insert(name@, lua@),
            ));
        }
        Ok(lua)
    }

    /// Closes the innermost scope (the bottom one stays).
    pub fn pop_scope(&mut self)
        requires
            old(self).wf(),
        ensures
            final(self).wf(),
            old(self).scope_maps().len() > 1 ==> final(self).scope_maps() == old(self).scope_maps().drop_last(),
            old(self).scope_maps().len() <= 1 ==> final(self).scope_maps() == old(self).scope_maps(),
            final(self).used_names() == old(self).used_names(),
            final(self).names_kept(*old(self)),
    {
        if self.scopes.len() > 1 {
            self.scopes.pop();
            proof {
                assert(self.scope_maps() =~= old(self).scope_maps().drop_last());
            }
        }
    }
}

pub open spec fn has_sep(s: Seq<char>) -> bool {
    sep_from(s, 0) is Some
}

fn split_once_sep(v: &str) -> (r: Option<(String, String)>)
    ensures
        match split_sep(v@) {
            Some((l, rt)) => r matches Some((a, b)) && a@ == l && b@ == rt,
            None => r is None,
        },
{
    let chars = chars_of(v);
    match find_sep(&chars, 0) {
        Some(i) => Some((substring(&chars, 0, i), substring(&chars, i + 2, chars.len()))),
        None => None,
    }
}

fn paren(e: String) -> (r: String)
    ensures
        r@ == seq!['('] + e@ + seq![')'],
{
    proof {
        reveal_strlit("(");
        reveal_strlit(")");
    }
    concat(&concat(&owned("("), e.as_str()), ")")
}

/// The generator's state: the names it hands out, the top-level names in
/// order, the tables for qualified definitions, and for each qualified
/// definition its table's Lua name and access chain.
pub struct LuaGen {
    env: Env,
    def_names: Vec<String>,
    table_init: Vec<String>,
    qualified: Vec<(String, String, String)>,
}

impl LuaGen {
    pub closed spec fn wf(&self) -> bool {
        self.env.wf()
    }

    pub closed spec fn scope_maps(&self) -> Seq<Map<Seq<char>, Seq<char>>> {
        self.env.scope_maps()
    }

    /// A marker for an intermediate step of a compilation.
    pub open spec fn gen_step<T>(pre: LuaGen, r: T, post: LuaGen) -> bool {
        true
    }

    /// `a` and `b` have the same scopes, names handed out and counter.
    pub closed spec fn same_env(a: LuaGen, b: LuaGen) -> bool {
        a.env == b.env
    }

    /// `post` is `pre` with only its scopes, names handed out and counter
    /// possibly changed.
    pub closed spec fn same_defs(pre: LuaGen, post: LuaGen) -> bool {
        &&& post.def_names == pre.def_names
        &&& post.table_init == pre.table_init
        &&& post.qualified == pre.qualified
    }

    /// `post` is `pre` after a parameter `name` was given the Lua name `l`
    /// in a new innermost scope.
    pub closed spec fn pushed(pre: LuaGen, name: Seq<char>, l: Seq<char>, post: LuaGen) -> bool {
        &&& Self::same_defs(pre, post)
        &&& post.env.wf()
        &&& post.env.scope_maps() == pre.env.scope_maps().push(Map::<Seq<char>, Seq<char>>::empty().insert(name, l))
        &&& Env::fresh_step(pre.env, name, l, post.env)
    }

    /// `post` is `pre` with its innermost scope closed.
    pub closed spec fn popped(pre: LuaGen, post: LuaGen) -> bool {
        &&& Self::same_defs(pre, post)
        &&& post.env.wf()
        &&& post.env.names_kept(pre.env)
        &&& post.env.scope_maps() == (if pre.env.scope_maps().len() > 1 {
            pre.env.scope_maps().drop_last()
        } else {
            pre.env.scope_maps()
        })
    }

    /// The Lua text of variable `v` in the scopes `maps`, where it has one:
    /// a plain name, or a `::` table access `left.b.c`.
    pub open spec fn var_text(maps: Seq<Map<Seq<char>, Seq<char>>>, v: Seq<char>) -> Option<Seq<char>> {
        match split_sep(v) {
            None => Self::env_name_of(maps, v),
            Some((l, rt)) => if l.len() == 0 || rt.len() == 0 || rt == "index"@ {
                None
            } else {
                match (Self::env_name_of(maps, l), field_access_of(rt)) {
                    (Some(x), Ok(a)) => Some(x + a),
                    _ => None,
                }
            },
        }
    }

    /// An index target or key: a lambda goes in parentheses.
    pub open spec fn bracketed(e: Seq<char>, kind: Ir) -> Seq<char> {
        if kind is Lam {
            seq!['('] + e + seq![')']
        } else {
            e
        }
    }

    /// A call's function part: a lambda or a literal goes in parentheses.
    pub open spec fn called(e: Seq<char>, kind: Ir) -> Seq<char> {
        if kind is Lam || kind is Int || kind is Float || kind is Str {
            seq!['('] + e + seq![')']
        } else {
            e
        }
    }

    /// Compiling `ir` from `pre` gives `r` and leaves `post`: literals as
    /// Lua literals, variables by `var_text`, a lambda as
    /// `function(p) return body end` with its parameter given a fresh Lua
    /// name in a new scope, `X::index K` and `X::index T K` as `X[K]` and
    /// `T[K]`, any other call as `f(a)`.
    pub open spec fn expr_lua(pre: LuaGen, ir: Ir, r: Result<String, String>, post: LuaGen) -> bool
        decreases ir,
    {
        match ir {
            Ir::Int(n) => post == pre && (r matches Ok(x) && x@ == int_text(n as int)),
            Ir::Float(t) => post == pre && (r matches Ok(x) && x@ == t@),
            Ir::Str(st) => post == pre && (r matches Ok(x) && x@ == lua_quoted(st@)),
            Ir::Var(v) => post == pre && match Self::var_text(pre.scope_maps(), v@) {
                Some(t) => r matches Ok(x) && x@ == t,
                None => r is Err,
            },
            Ir::Lam { param, body } => exists|rl: Result<String, String>, e1: LuaGen|
                #[trigger] Self::gen_step(pre, rl, e1) && match rl {
                    Err(_) => r is Err,
                    Ok(l) => Self::pushed(pre, param@, l@, e1) && exists|rb: Result<String, String>, e2: LuaGen|
                        #[trigger] Self::gen_step(e1, rb, e2) && Self::expr_lua(e1, *body, rb, e2) && match rb {
                            Err(_) => r is Err,
                            Ok(b) => (r matches Ok(x) && x@ == "function("@ + l@ + ") return "@ + b@ + " end"@)
                                && Self::popped(e2, post),
                        },
                },
            Ir::App(f, a) => {
                let general = exists|r1: Result<String, String>, e1: LuaGen|
                    #[trigger] Self::gen_step(pre, r1, e1) && Self::expr_lua(pre, *f, r1, e1) && match r1 {
                        Err(_) => r is Err,
                        Ok(fl) => exists|r2: Result<String, String>, e2: LuaGen|
                            #[trigger] Self::gen_step(e1, r2, e2) && Self::expr_lua(e1, *a, r2, e2) && match r2 {
                                Err(_) => r is Err,
                                Ok(al) => (r matches Ok(x) && x@ == Self::called(fl@, *f) + "("@ + al@ + ")"@)
                                    && post == e2,
                            },
                    };
                match *f {
                    Ir::App(inner, t) => match *inner {
                        Ir::Var(v) => if index_namespace_of(v@) is Some {
                            exists|r1: Result<String, String>, e1: LuaGen|
                                #[trigger] Self::gen_step(pre, r1, e1) && Self::expr_lua(pre, *t, r1, e1) && match r1 {
                                    Err(_) => r is Err,
                                    Ok(tl) => exists|r2: Result<String, String>, e2: LuaGen|
                                        #[trigger] Self::gen_step(e1, r2, e2) && Self::expr_lua(e1, *a, r2, e2) && match r2 {
                                            Err(_) => r is Err,
                                            Ok(kl) => (r matches Ok(x) && x@ == Self::bracketed(tl@, *t) + "["@
                                                + Self::bracketed(kl@, *a) + "]"@) && post == e2,
                                        },
                                }
                        } else {
                            general
                        },
                        _ => general,
                    },
                    Ir::Var(v) => match index_namespace_of(v@) {
                        Some(ns) => match Self::env_name_of(pre.scope_maps(), ns) {
                            None => r is Err,
                            Some(xn) => exists|r1: Result<String, String>, e1: LuaGen|
                                #[trigger] Self::gen_step(pre, r1, e1) && Self::expr_lua(pre, *a, r1, e1) && match r1 {
                                    Err(_) => r is Err,
                                    Ok(kl) => (r matches Ok(x) && x@ == xn + "["@ + Self::bracketed(kl@, *a) + "]"@)
                                        && post == e1,
                                },
                        },
                        None => general,
                    },
                    _ => general,
                }
            },
        }
    }

    /// The texts of `v`.
    pub open spec fn strs(v: Seq<String>) -> Seq<Seq<char>> {
        v.map_values(|x: String| x@)
    }

    /// The qualified definitions as texts: full name, table, access chain.
    pub open spec fn quals(v: Seq<(String, String, String)>) -> Seq<(Seq<char>, Seq<char>, Seq<char>)> {
        v.map_values(|q: (String, String, String)| (q.0@, q.1@, q.2@))
    }

    /// The Lua names of the definitions, in the order they were declared.
    pub closed spec fn def_names_view(&self) -> Seq<Seq<char>> {
        Self::strs(self.def_names@)
    }

    /// The tables created for qualified definitions, in order.
    pub closed spec fn table_init_view(&self) -> Seq<Seq<char>> {
        Self::strs(self.table_init@)
    }

    /// The qualified definitions recorded so far, with their tables and access chains.
    pub closed spec fn qualified_view(&self) -> Seq<(Seq<char>, Seq<char>, Seq<char>)> {
        Self::quals(self.qualified@)
    }

    /// `post` is `pre` after the top-level name `name` was given `l`.
    pub closed spec fn defined(pre: LuaGen, name: Seq<char>, l: Seq<char>, post: LuaGen) -> bool {
        &&& Self::same_defs(pre, post)
        &&& post.env.wf()
        &&& post.env.scope_maps() == pre.env.scope_maps().update(0, pre.env.scope_maps()[0].insert(name, l))
        &&& Env::fresh_step(pre.env, name, l, post.env)
    }

    /// Declaring `defs` from the `i`-th, with the names in `seen` already
    /// declared, from `pre`, gives `r` and leaves `post`. A plain name is
    /// declared once: it gets a Lua name and is forward-declared. A
    /// qualified name `l::rest` records its table and access chain; its
    /// table `l`, the first time, gets a Lua name, is forward-declared and
    /// created.
    pub open spec fn declares(
        pre: LuaGen,
        seen: Set<Seq<char>>,
        defs: Seq<IrDef>,
        i: int,
        r: Result<(), String>,
        post: LuaGen,
    ) -> bool
        decreases defs.len() - i,
    {
        if i < 0 || i >= defs.len() {
            r is Ok && post == pre
        } else {
            match def_name(defs[i as int]) {
                None => Self::declares(pre, seen, defs, i + 1, r, post),
                Some(name) => match split_sep(name) {
                    Some((l, rt)) => if l.len() == 0 || rt.len() == 0 {
                        r is Err
                    } else if seen.contains(l) {
                        match Env::lookup_in(pre.scope_maps(), l) {
                            None => r is Err,
                            Some(ll) => match field_access_of(rt) {
                                Err(_) => r is Err,
                                Ok(acc) => exists|g: LuaGen|
                                    #[trigger] Self::gen_step(pre, acc, g) && Self::same_env(g, pre) && g.def_names_view() == pre.def_names_view() && g.table_init_view() == pre.table_init_view() && g.qualified_view()
                                        == pre.qualified_view().push((name, ll, acc)) && Self::declares(
                                        g,
                                        seen.insert(name),
                                        defs,
                                        i + 1,
                                        r,
                                        post,
                                    ),
                            },
                        }
                    } else {
                        exists|rl: Result<String, String>, g1: LuaGen|
                            #[trigger] Self::gen_step(pre, rl, g1) && match rl {
                                Err(_) => r is Err,
                                Ok(ll) => Self::defined(pre, l, ll@, g1) && match field_access_of(rt) {
                                    Err(_) => r is Err,
                                    Ok(acc) => exists|g2: LuaGen|
                                        #[trigger] Self::gen_step(g1, acc, g2) && Self::same_env(g2, g1) && g2.def_names_view() == g1.def_names_view().push(ll@) && g2.table_init_view()
                                            == g1.table_init_view().push(ll@) && g2.qualified_view()
                                            == g1.qualified_view().push((name, ll@, acc)) && Self::declares(
                                            g2,
                                            seen.insert(l).insert(name),
                                            defs,
                                            i + 1,
                                            r,
                                            post,
                                        ),
                                },
                            }
                    },
                    None => if seen.contains(name) {
                        Self::declares(pre, seen, defs, i + 1, r, post)
                    } else {
                        exists|rl: Result<String, String>, g1: LuaGen|
                            #[trigger] Self::gen_step(pre, rl, g1) && match rl {
                                Err(_) => r is Err,
                                Ok(ll) => Self::defined(pre, name, ll@, g1) && exists|g2: LuaGen|
                                    #[trigger] Self::gen_step(g1, ll, g2) && Self::same_env(g2, g1) && g2.def_names_view()
                                        == g1.def_names_view().push(ll@) && g2.table_init_view() == g1.table_init_view()
                                        && g2.qualified_view() == g1.qualified_view() && Self::declares(
                                        g2,
                                        seen.insert(name),
                                        defs,
                                        i + 1,
                                        r,
                                        post,
                                    ),
                            }
                    },
                },
            }
        }
    }

    /// The text of the definitions from the `i`-th, compiled from `g`, is
    /// `r` (`None` on an error), leaving `post`. A binding becomes a thunk
    /// `lhs = function() return <body> end`; a native becomes a wrapper of
    /// the host function, after a stub where the prelude does not have it;
    /// the left side is the definition's Lua name, or for a qualified name
    /// its table and access chain.
    pub open spec fn defs_lua(g: LuaGen, defs: Seq<IrDef>, i: int, r: Option<Seq<char>>, post: LuaGen) -> bool
        decreases defs.len() - i,
    {
        if i < 0 || i >= defs.len() {
            r == Some(Seq::<char>::empty()) && post == g
        } else {
            match defs[i] {
                IrDef::Bind { name, expr } => {
                    let lhs: Option<Seq<char>> = if has_sep(name@) {
                        match qualified_from(g.qualified_view(), name@, 0) {
                            Some((t, a)) => Some(t + a),
                            None => None,
                        }
                    } else {
                        Env::lookup_in(g.scope_maps(), name@)
                    };
                    match lhs {
                        None => r is None,
                        Some(lh) => exists|rb: Result<String, String>, g1: LuaGen|
                            #[trigger] Self::gen_step(g, rb, g1) && Self::expr_lua(g, expr, rb, g1) && match rb {
                                Err(_) => r is None,
                                Ok(b) => exists|rr: Option<Seq<char>>, g2: LuaGen|
                                    #[trigger] Self::gen_step(g1, rr, g2) && Self::defs_lua(g1, defs, i + 1, rr, g2)
                                        && match rr {
                                        None => r is None,
                                        Some(rest) => r == Some(lh + " = function() return "@ + b@ + " end\n"@ + rest)
                                            && post == g2,
                                    },
                            },
                    }
                },
                IrDef::Native { name, arity } => {
                    let head: Option<Seq<char>> = if has_sep(name@) {
                        match qualified_from(g.qualified_view(), name@, 0) {
                            Some((t, a)) => Some(stub_for(name@, false) + t + a),
                            None => None,
                        }
                    } else {
                        match Env::lookup_in(g.scope_maps(), name@) {
                            Some(l) => Some(stub_for(name@, true) + l),
                            None => None,
                        }
                    };
                    match head {
                        None => r is None,
                        Some(h) => exists|rr: Option<Seq<char>>|
                            #[trigger] Self::gen_step(g, rr, post) && Self::defs_lua(g, defs, i + 1, rr, post)
                                && match rr {
                                None => r is None,
                                Some(rest) => r == Some(h + " = "@ + native_body_of(name@, arity as nat) + "\n"@ + rest),
                            },
                    }
                },
                IrDef::Infix { .. } => Self::defs_lua(g, defs, i + 1, r, post),
            }
        }
    }

    /// Compiling the program `defs` from `pre` gives `r` and leaves `post`:
    /// the definitions are declared (`declares`); the text is the header,
    /// the runtime, the forward declaration of every defined Lua name, the
    /// tables of qualified definitions, the definitions (`defs_lua`), and
    /// the call of the entry point where it is defined.
    pub open spec fn program_lua(
        pre: LuaGen,
        defs: Seq<IrDef>,
        entry: Option<Seq<char>>,
        r: Result<String, String>,
        post: LuaGen,
    ) -> bool {
        exists|rd: Result<(), String>, d: LuaGen|
            #[trigger] Self::gen_step(pre, rd, d) && Self::declares(pre, Set::empty(), defs, 0, rd, d) && match rd {
                Err(e) => r == Err::<String, String>(e),
                Ok(_) => exists|rb: Option<Seq<char>>, fin: LuaGen|
                    #[trigger] Self::gen_step(d, rb, fin) && Self::defs_lua(d, defs, 0, rb, fin) && match rb {
                        None => r is Err,
                        Some(body) => (r matches Ok(out) && out@ == header_text() + preamble_text() + forward_text(
                            d.def_names_view(),
                        ) + tables_text(d.table_init_view()) + body + entry_text(fin.scope_maps(), entry))
                            && post == fin,
                    },
            }
    }

    /// A generator that has compiled nothing yet.
    pub closed spec fn is_new(&self) -> bool {
        &&& self.env.wf()
        &&& self.env.scope_maps() == seq![Map::<Seq<char>, Seq<char>>::empty()]
        &&& self.env.is_fresh()
        &&& self.def_names@.len() == 0
        &&& self.table_init@.len() == 0
        &&& self.qualified@.len() == 0
    }

    /// The qualified definitions recorded so far, by full name.
    pub closed spec fn qualified_names(&self) -> Seq<Seq<char>> {
        self.qualified@.map_values(|q: (String, String, String)| q.0@)
    }

    pub fn new() -> (g: Self)
        ensures
            g.wf(),
            g.scope_maps() == seq![Map::<Seq<char>, Seq<char>>::empty()],
            g.is_new(),
    {
        let env = Env::new();
        LuaGen { env, def_names: Vec::new(), table_init: Vec::new(), qualified: Vec::new() }
    }

    /// The Lua name of a plain name: its binding, else the name itself as a
    /// global when it keeps its spelling.
    pub open spec fn env_name_of(maps: Seq<Map<Seq<char>, Seq<char>>>, name: Seq<char>) -> Option<Seq<char>> {
        match Env::lookup_in(maps, name) {
            Some(l) => Some(l),
            None => if keeps_spelling(name) {
                Some(name)
            } else {
                None
            },
        }
    }

    pub fn env_name(&self, name: &str) -> (r: Result<String, String>)
        requires
            self.wf(),
        ensures
            match Self::env_name_of(self.scope_maps(), name@) {
                Some(l) => r matches Ok(x) && x@ == l,
                None => r is Err,
            },
    {
        match self.env.lookup(name) {
            Some(l) => Ok(l),
            None => {
                if keeps_spelling_exec(name) {
                    Ok(owned(name))
                } else {
                    let m = concat(
                        &concat(&owned("parlance_lua: compile error: unbound variable '"), name),
                        "' cannot be emitted as a Lua name",
                    );
                    Err(m)
                }
            },
        }
    }

    /// A variable: a plain name, or a `::` table access `left.b.c`.
    pub fn compile_var(&self, v: &str) -> (r: Result<String, String>)
        requires
            self.wf(),
        ensures
            !has_sep(v@) ==> match Self::env_name_of(self.scope_maps(), v@) {
                Some(l) => r matches Ok(x) && x@ == l,
                None => r is Err,
            },
            split_sep(v@) matches Some((l, rt)) ==> (l.len() == 0 || rt.len() == 0 || rt == "index"@)
                ==> r is Err,
            split_sep(v@) matches Some((l, rt)) ==> (l.len() > 0 && rt.len() > 0 && rt != "index"@) ==> match (
                Self::env_name_of(self.scope_maps(), l),
                field_access_of(rt),
            ) {
                (Some(x), Ok(a)) => r matches Ok(out) && out@ == x + a,
                _ => r is Err,
            },
    {
        proof {
            reveal_strlit("");
            assert(""@ =~= Seq::<char>::empty());
        }
        match split_once_sep(v) {
            Some((left, right)) => {
                if seq_eq_str(&left, "") {
                    return Err(concat(
                        &concat(&owned("parlance_lua: compile error: malformed variable '"), v),
                        "': empty left segment",
                    ));
                }
                if seq_eq_str(&right, "") {
                    return Err(concat(
                        &concat(&owned("parlance_lua: compile error: malformed variable '"), v),
                        "': empty right segment",
                    ));
                }
                if seq_eq_str(&right, "index") {
                    return Err(concat(
                        &concat(&owned("parlance_lua: compile error: bare '"), v),
                        "' cannot be emitted as a raw Lua name \u{2014} use it applied: X::index K or X::index T K",
                    ));
                }
                let access = match field_access(right.as_str()) {
                    Ok(a) => a,
                    Err(e) => {
                        let m = concat(
                            &concat(&owned("parlance_lua: compile error: malformed variable '"), v),
                            "': ",
                        );
                        return Err(concat(&m, e.as_str()));
                    },
                };
                let left_lua = self.env_name(left.as_str())?;
                proof {
                    if left@.len() == 0 {
                        assert(left@ =~= ""@);
                    }
                    if right@.len() == 0 {
                        assert(right@ =~= ""@);
                    }
                }
                Ok(concat(&left_lua, access.as_str()))
            },
            None => self.env_name(v),
        }
    }

    /// A call's function part: a lambda or literal needs parentheses.
    pub fn call_expr(&self, e: String, kind: &Ir) -> (r: String)
        ensures
            r@ == (if kind is Lam || kind is Int || kind is Float || kind is Str {
                seq!['('] + e@ + seq![')']
            } else {
                e@
            }),
    {
        match kind {
            Ir::Lam { .. } | Ir::Int(_) | Ir::Float(_) | Ir::Str(_) => paren(e),
            _ => e,
        }
    }

    /// An index target or key: only a lambda needs parentheses.
    pub fn bracket_expr(&self, e: String, kind: &Ir) -> (r: String)
        ensures
            r@ == (if kind is Lam {
                seq!['('] + e@ + seq![')']
            } else {
                e@
            }),
    {
        match kind {
            Ir::Lam { .. } => paren(e),
            _ => e,
        }
    }

    /// The Lua text of a term.
    pub fn compile_expr(&mut self, ir: &Ir) -> (r: Result<String, String>)
        requires
            old(self).wf(),
        ensures
            final(self).wf(),
            r is Ok ==> final(self).scope_maps() == old(self).scope_maps(),
            Self::expr_lua(*old(self), *ir, r, *final(self)),
            match *ir {
                Ir::Int(n) => r matches Ok(x) && x@ == int_text(n as int),
                Ir::Float(t) => r matches Ok(x) && x@ == t@,
                Ir::Str(s) => r matches Ok(x) && x@ == lua_quoted(s@),
                Ir::Var(v) => (!has_sep(v@) ==> match Self::env_name_of(old(self).scope_maps(), v@) {
                    Some(l) => r matches Ok(x) && x@ == l,
                    None => r is Err,
                }) && (split_sep(v@) matches Some((l, rt)) ==> (l.len() > 0 && rt.len() > 0 && rt != "index"@)
                    ==> match (Self::env_name_of(old(self).scope_maps(), l), field_access_of(rt)) {
                    (Some(x), Ok(a)) => r matches Ok(out) && out@ == x + a,
                    _ => r is Err,
                }),
                Ir::Lam { .. } => r matches Ok(x) ==> exists|p: Seq<char>, b: Seq<char>|
                    x@ == "function("@ + p + ") return "@ + b + " end"@,
                Ir::App(..) => true,
            },
        decreases ir,
    {
        let ghost pre = *self;
        match ir {
            Ir::Int(n) => Ok(i64_to_text(*n)),
            Ir::Float(t) => Ok(t.clone()),
            Ir::Str(s) => Ok(lua_string(s.as_str())),
            Ir::Var(v) => {
                let r = self.compile_var(v.as_str());
                proof {
                    assert(has_sep(v@) == split_sep(v@) is Some);
                }
                r
            },
            Ir::Lam { param, body } => {
                let rl = self.env.push_bind(param.as_str());
                let ghost e1 = *self;
                proof {
                    assert(Self::gen_step(pre, rl, e1));
                }
                let lua_param = match rl {
                    Ok(l) => l,
                    Err(e) => {
                        return Err(e);
                    },
                };
                let rb = self.compile_expr(body);
                let ghost e2 = *self;
                proof {
                    assert(Self::gen_step(e1, rb, e2));
                }
                let body_lua = match rb {
                    Ok(b) => b,
                    Err(e) => {
                        return Err(e);
                    },
                };
                self.env.pop_scope();
                let a = concat(&concat(&owned("function("), lua_param.as_str()), ") return ");
                let r = concat(&concat(&a, body_lua.as_str()), " end");
                proof {
                    assert(r@ == "function("@ + lua_param@ + ") return "@ + body_lua@ + " end"@);
                }
                Ok(r)
            },
            Ir::App(f, a) => {
                if let Ir::App(inner, t) = &**f {
                    if let Ir::Var(v) = &**inner {
                        if index_namespace(v.as_str()).is_some() {
                            let r1 = self.compile_expr(t);
                            let ghost e1 = *self;
                            proof {
                                assert(Self::gen_step(pre, r1, e1));
                            }
                            let t_lua = match r1 {
                                Ok(x) => x,
                                Err(e) => {
                                    return Err(e);
                                },
                            };
                            let r2 = self.compile_expr(a);
                            let ghost e2 = *self;
                            proof {
                                assert(Self::gen_step(e1, r2, e2));
                            }
                            let k_lua = match r2 {
                                Ok(x) => x,
                                Err(e) => {
                                    return Err(e);
                                },
                            };
                            let t_lua = self.bracket_expr(t_lua, t);
                            let k_lua = self.bracket_expr(k_lua, a);
                            let x = concat(&concat(&t_lua, "["), k_lua.as_str());
                            return Ok(concat(&x, "]"));
                        }
                    }
                }
                if let Ir::Var(v) = &**f {
                    if let Some(namespace) = index_namespace(v.as_str()) {
                        let x = self.env_name(namespace.as_str())?;
                        let r1 = self.compile_expr(a);
                        let ghost e1 = *self;
                        proof {
                            assert(Self::gen_step(pre, r1, e1));
                        }
                        let k_lua = match r1 {
                            Ok(x) => x,
                            Err(e) => {
                                return Err(e);
                            },
                        };
                        let k_lua = self.bracket_expr(k_lua, a);
                        let y = concat(&concat(&x, "["), k_lua.as_str());
                        return Ok(concat(&y, "]"));
                    }
                }
                let r1 = self.compile_expr(f);
                let ghost e1 = *self;
                proof {
                    assert(Self::gen_step(pre, r1, e1));
                }
                let f_lua = match r1 {
                    Ok(x) => x,
                    Err(e) => {
                        return Err(e);
                    },
                };
                let r2 = self.compile_expr(a);
                let ghost e2 = *self;
                proof {
                    assert(Self::gen_step(e1, r2, e2));
                }
                let a_lua = match r2 {
                    Ok(x) => x,
                    Err(e) => {
                        return Err(e);
                    },
                };
                let f_lua = self.call_expr(f_lua, f);
                let y = concat(&concat(&f_lua, "("), a_lua.as_str());
                Ok(concat(&y, ")"))
            },
        }
    }

    /// The table's Lua name and access chain recorded for qualified
    /// definition `name`.
    pub fn qualified_for(&self, name: &str) -> (r: Result<(String, String), String>)
        ensures
            r is Ok <==> self.qualified_names().contains(name@),
            match qualified_from(self.qualified_view(), name@, 0) {
                Some((t, a)) => r matches Ok((x, y)) && x@ == t && y@ == a,
                None => r is Err,
            },
    {
        let key = owned(name);
        let mut i: usize = 0;
        while i < self.qualified.len()
            invariant
                i <= self.qualified@.len(),
                key@ == name@,
                forall|j: int| 0 <= j < i ==> (#[trigger] self.qualified@[j]).0@ != name@,
                qualified_from(self.qualified_view(), name@, 0) == qualified_from(self.qualified_view(), name@, i as int),
            decreases self.qualified@.len() - i,
        {
            if str_eq(&self.qualified[i].0, &key) {
                proof {
                    assert(self.qualified_names()[i as int] == name@);
                }
                return Ok((self.qualified[i].1.clone(), self.qualified[i].2.clone()));
            }
            i = i + 1;
        }
        proof {
            if self.qualified_names().contains(name@) {
                let k = choose|k: int| 0 <= k < self.qualified_names().len() && self.qualified_names()[k] == name@;
                assert(self.qualified@[k].0@ == name@);
            }
        }
        Err(concat(&concat(&owned("parlance_lua: internal: qualified def '"), name), "' missing"))
    }

    fn malformed_definition(name: &String) -> (m: String) {
        concat(&concat(&owned("parlance_lua: compile error: malformed definition name '"), name.as_str()), "'")
    }

    /// Pass A: declares every definition name, in order, so that
    /// definitions may refer to later ones.
    fn declare(&mut self, defs: &[IrDef]) -> (r: Result<(), String>)
        requires
            old(self).wf(),
        ensures
            final(self).wf(),
            (exists|i: int|
                0 <= i < defs@.len() && #[trigger] def_name_malformed(defs@[i])) ==> r is Err,
            Self::declares(*old(self), Set::empty(), defs@, 0, r, *final(self)),
    {
        let mut seen: Vec<String> = Vec::new();
        let mut i: usize = 0;
        proof {
            assert(Self::strs(seen@).to_set() =~= Set::<Seq<char>>::empty());
        }
        while i < defs.len()
            invariant
                self.wf(),
                i <= defs@.len(),
                forall|j: int| 0 <= j < i ==> !def_name_malformed(#[trigger] defs@[j]),
                forall|rr: Result<(), String>, pp: LuaGen|
                    #[trigger] Self::declares(*self, Self::strs(seen@).to_set(), defs@, i as int, rr, pp)
                        ==> Self::declares(*old(self), Set::empty(), defs@, 0, rr, pp),
            decreases defs@.len() - i,
        {
            let ghost g0 = *self;
            let ghost sv0 = seen@;
            let ghost seen0 = Self::strs(seen@).to_set();
            let named: Option<&String> = match &defs[i] {
                IrDef::Bind { name, .. } => Some(name),
                IrDef::Native { name, .. } => Some(name),
                IrDef::Infix { .. } => None,
            };
            match named {
                None => {
                    proof {
                        assert forall|rr: Result<(), String>, pp: LuaGen|
                            #[trigger] Self::declares(*self, Self::strs(seen@).to_set(), defs@, i + 1, rr, pp)
                                implies Self::declares(*old(self), Set::empty(), defs@, 0, rr, pp) by {
                            assert(Self::declares(g0, seen0, defs@, i as int, rr, pp));
                        }
                    }
                },
                Some(name) => match split_once_sep(name.as_str()) {
                    Some((left, right)) => {
                        if seq_eq_str(&left, "") || seq_eq_str(&right, "") {
                            proof {
                                reveal_strlit("");
                                assert(""@ =~= Seq::<char>::empty());
                                if left@ == ""@ {
                                    assert(left@.len() == 0);
                                }
                                if right@ == ""@ {
                                    assert(right@.len() == 0);
                                }
                                assert(def_name_malformed(defs@[i as int]));
                            }
                            let e = Self::malformed_definition(name);
                            proof {
                                assert(Self::declares(g0, seen0, defs@, i as int, Err::<(), String>(e), *self));
                            }
                            return Err(e);
                        }
                        proof {
                            reveal_strlit("");
                            if left@.len() == 0 {
                                assert(left@ =~= ""@);
                            }
                            if right@.len() == 0 {
                                assert(right@ =~= ""@);
                            }
                        }
                        let left_was_known = contains_string(&seen, &left);
                        proof {
                            lemma_strs_contains(seen@, left@);
                        }
                        let ghost g1: LuaGen;
                        let ghost rl: Result<String, String>;
                        let left_lua = if left_was_known {
                            match self.env.lookup(left.as_str()) {
                                Some(l) => {
                                    proof {
                                        g1 = *self;
                                        rl = Ok::<String, String>(l);
                                    }
                                    l
                                },
                                None => {
                                    let e = concat(
                                        &concat(&owned("parlance_lua: internal: left segment '"), left.as_str()),
                                        "' unregistered",
                                    );
                                    proof {
                                        assert(Self::declares(g0, seen0, defs@, i as int, Err::<(), String>(e), *self));
                                    }
                                    return Err(e);
                                },
                            }
                        } else {
                            seen.push(left.clone());
                            proof {
                                assert(seen@.drop_last() =~= sv0);
                                lemma_strs_push_set(seen@);
                            }
                            let rdef = self.env.define(left.as_str());
                            proof {
                                g1 = *self;
                                rl = rdef;
                                assert(Self::gen_step(g0, rdef, g1));
                            }
                            let lua = match rdef {
                                Ok(l) => l,
                                Err(e) => {
                                    proof {
                                        assert(Self::declares(g0, seen0, defs@, i as int, Err::<(), String>(e), *self));
                                    }
                                    return Err(e);
                                },
                            };
                            self.def_names.push(lua.clone());
                            lua
                        };
                        let ghost sv1 = seen@;
                        seen.push(name.clone());
                        proof {
                            assert(seen@.drop_last() =~= sv1);
                            lemma_strs_push_set(seen@);
                            if left_was_known {
                                assert(sv1 == sv0);
                            } else {
                                assert(Self::strs(sv1).to_set() == seen0.insert(left@));
                            }
                        }
                        if !left_was_known {
                            self.table_init.push(left_lua.clone());
                        }
                        let access = match field_access(right.as_str()) {
                            Ok(a) => a,
                            Err(e) => {
                                let m = concat(&Self::malformed_definition(name), ": ");
                                let e2 = concat(&m, e.as_str());
                                proof {
                                    assert(Self::declares(g0, seen0, defs@, i as int, Err::<(), String>(e2), *self));
                                }
                                return Err(e2);
                            },
                        };
                        let ghost before_q = self.qualified@;
                        self.qualified.push((name.clone(), left_lua, access));
                        proof {
                            assert(Self::quals(self.qualified@) =~= Self::quals(before_q).push((name@, left_lua@, access@)));
                            lemma_strs_push_set(seen@);
                            if left_was_known {
                                assert(Self::gen_step(g0, access@, *self));
                                assert(Env::lookup_in(g0.env.scope_maps(), left@) == Some(left_lua@));
                            } else {
                                assert(Self::gen_step(g1, access@, *self));
                                assert(rl == Ok::<String, String>(left_lua));
                                assert(Self::strs(self.def_names@) =~= Self::strs(g1.def_names@).push(left_lua@));
                                assert(Self::strs(self.table_init@) =~= Self::strs(g1.table_init@).push(left_lua@));
                            }
                            assert forall|rr: Result<(), String>, pp: LuaGen|
                                #[trigger] Self::declares(*self, Self::strs(seen@).to_set(), defs@, i + 1, rr, pp)
                                    implies Self::declares(*old(self), Set::empty(), defs@, 0, rr, pp) by {
                                assert(Self::declares(g0, seen0, defs@, i as int, rr, pp));
                            }
                        }
                    },
                    None => {
                        let known = contains_string(&seen, name);
                        proof {
                            lemma_strs_contains(seen@, name@);
                        }
                        if !known {
                            seen.push(name.clone());
                            proof {
                                assert(seen@.drop_last() =~= sv0);
                                lemma_strs_push_set(seen@);
                            }
                            let rdef = self.env.define(name.as_str());
                            let ghost g1 = *self;
                            proof {
                                assert(Self::gen_step(g0, rdef, g1));
                            }
                            let lua = match rdef {
                                Ok(l) => l,
                                Err(e) => {
                                    proof {
                                        assert(Self::declares(g0, seen0, defs@, i as int, Err::<(), String>(e), *self));
                                    }
                                    return Err(e);
                                },
                            };
                            let ghost lua_v = lua;
                            self.def_names.push(lua);
                            proof {
                                assert(Self::strs(self.def_names@) =~= Self::strs(g1.def_names@).push(lua_v@));
                                assert(Self::gen_step(g1, lua_v, *self));
                                lemma_strs_push_set(seen@);
                            }
                        }
                        proof {
                            assert forall|rr: Result<(), String>, pp: LuaGen|
                                #[trigger] Self::declares(*self, Self::strs(seen@).to_set(), defs@, i + 1, rr, pp)
                                    implies Self::declares(*old(self), Set::empty(), defs@, 0, rr, pp) by {
                                assert(Self::declares(g0, seen0, defs@, i as int, rr, pp));
                            }
                        }
                    },
                },
            }
            i = i + 1;
        }
        proof {
            assert(Self::declares(*self, Self::strs(seen@).to_set(), defs@, i as int, Ok::<(), String>(()), *self));
        }
        Ok(())
    }

    /// The whole file: header, runtime, forward declarations, tables for
    /// qualified definitions, the definitions, and a call of `entry_point`
    /// when it is a defined name.
    #[verifier::rlimit(100)]
    #[verifier::spinoff_prover]
    pub fn compile_program(&mut self, defs: &[IrDef], entry_point: Option<&str>) -> (r: Result<String, String>)
        requires
            old(self).wf(),
        ensures
            r matches Ok(out) ==> is_prefix_of_text(header_text() + preamble_text(), out@),
            (exists|i: int| 0 <= i < defs@.len() && #[trigger] def_name_malformed(defs@[i])) ==> r is Err,
            r is Ok && entry_point is Some && Env::lookup_in(final(self).scope_maps(), entry_point->Some_0@) is Some
                ==> ends_with(
                r->Ok_0@,
                "-- entry point\n"@ + Env::lookup_in(final(self).scope_maps(), entry_point->Some_0@)->Some_0 + "()\n"@,
            ),
            Self::program_lua(
                *old(self),
                defs@,
                match entry_point {
                    Some(e) => Some(e@),
                    None => None,
                },
                r,
                *final(self),
            ),
    {
        let ghost pre = *self;
        let rd = self.declare(defs);
        let ghost d = *self;
        proof {
            assert(Self::gen_step(pre, rd, d));
        }
        match rd {
            Ok(_) => {},
            Err(e) => {
                return Err(e);
            },
        }
        let mut out = owned("-- Generated by parlance_lua (Parlance IR -> Lua).\n");
        let pre_text = preamble();
        out = concat(&out, pre_text.as_str());
        let ghost head = out@;
        proof {
            assert(head == header_text() + preamble_text());
            assert(out@.subrange(0, head.len() as int) =~= head);
        }
        let ghost names = d.def_names_view();
        if self.def_names.len() > 0 {
            out = extend(out, "-- forward declarations\nlocal ", Ghost(head));
            let mut k: usize = 0;
            proof {
                assert(names.take(0) =~= Seq::<Seq<char>>::empty());
            }
            while k < self.def_names.len()
                invariant
                    is_prefix_of_text(head, out@),
                    *self == d,
                    pre == *old(self),
                    Self::declares(pre, Set::empty(), defs@, 0, rd, d),
                    rd is Ok,
                    names == d.def_names_view(),
                    names == Self::strs(self.def_names@),
                    k <= self.def_names@.len(),
                    out@ == head + "-- forward declarations\nlocal "@ + joined(names.take(k as int)),
                decreases self.def_names@.len() - k,
            {
                let ghost before = out@;
                if k > 0 {
                    out = extend(out, ", ", Ghost(head));
                }
                out = extend(out, self.def_names[k].as_str(), Ghost(head));
                proof {
                    let t = names.take(k + 1);
                    assert(t.drop_last() =~= names.take(k as int));
                    assert(t.last() == self.def_names@[k as int]@);
                    if k == 0 {
                        assert(joined(t) == t[0]);
                    }
                }
                k = k + 1;
            }
            out = extend(out, "\n", Ghost(head));
            proof {
                assert(names.take(names.len() as int) =~= names);
            }
        }
        proof {
            assert(out@ =~= head + forward_text(names));
        }
        let ghost tables = d.table_init_view();
        let ghost before_tables = out@;
        let mut k: usize = 0;
        proof {
            assert(tables.take(0) =~= Seq::<Seq<char>>::empty());
            assert(out@ =~= before_tables + tables_text(tables.take(0)));
        }
        while k < self.table_init.len()
            invariant
                is_prefix_of_text(head, out@),
                *self == d,
                pre == *old(self),
                Self::declares(pre, Set::empty(), defs@, 0, rd, d),
                rd is Ok,
                names == d.def_names_view(),
                tables == d.table_init_view(),
                before_tables == head + forward_text(names),
                tables == Self::strs(self.table_init@),
                k <= self.table_init@.len(),
                out@ == before_tables + tables_text(tables.take(k as int)),
            decreases self.table_init@.len() - k,
        {
            out = extend(out, "-- table for ::-qualified definitions\n", Ghost(head));
            out = extend(out, self.table_init[k].as_str(), Ghost(head));
            out = extend(out, " = {}\n", Ghost(head));
            proof {
                let t = tables.take(k + 1);
                assert(t.drop_last() =~= tables.take(k as int));
                assert(t.last() == self.table_init@[k as int]@);
            }
            k = k + 1;
        }
        proof {
            assert(tables.take(tables.len() as int) =~= tables);
        }
        let ghost prefix = out@;
        let ghost mut acc: Seq<char> = Seq::empty();
        let mut i: usize = 0;
        proof {
            assert(out@ =~= prefix + acc);
            assert forall|rr: Option<Seq<char>>, pp: LuaGen|
                #[trigger] Self::defs_lua(*self, defs@, 0, rr, pp) implies Self::defs_lua(
                    d,
                    defs@,
                    0,
                    match rr {
                        Some(x) => Some(acc + x),
                        None => None,
                    },
                    pp,
                ) by {
                match rr {
                    Some(x) => {
                        assert(acc + x =~= x);
                    },
                    None => {},
                }
            }
        }
        while i < defs.len()
            invariant
                self.wf(),
                is_prefix_of_text(head, out@),
                i <= defs@.len(),
                out@ == prefix + acc,
                pre == *old(self),
                Self::gen_step(pre, rd, d),
                Self::declares(pre, Set::empty(), defs@, 0, rd, d),
                rd is Ok,
                head == header_text() + preamble_text(),
                prefix == head + forward_text(d.def_names_view()) + tables_text(d.table_init_view()),
                forall|rr: Option<Seq<char>>, pp: LuaGen|
                    #[trigger] Self::defs_lua(*self, defs@, i as int, rr, pp) ==> Self::defs_lua(
                        d,
                        defs@,
                        0,
                        match rr {
                            Some(x) => Some(acc + x),
                            None => None,
                        },
                        pp,
                    ),
            decreases defs@.len() - i,
        {
            let ghost g = *self;
            let ghost acc0 = acc;
            match &defs[i] {
                IrDef::Bind { name, expr } => {
                    let lhs = if split_once_sep(name.as_str()).is_some() {
                        match self.qualified_for(name.as_str()) {
                            Ok((left_lua, access)) => concat(&left_lua, access.as_str()),
                            Err(e) => {
                                proof {
                                    assert(Self::defs_lua(g, defs@, i as int, None, *self));
                                    assert(Self::gen_step(d, None::<Seq<char>>, *self));
                                }
                                return Err(e);
                            },
                        }
                    } else {
                        match self.env.lookup(name.as_str()) {
                            Some(l) => l,
                            None => {
                                proof {
                                    assert(Self::defs_lua(g, defs@, i as int, None, *self));
                                    assert(Self::gen_step(d, None::<Seq<char>>, *self));
                                }
                                return Err(
                                    concat(&concat(&owned("parlance_lua: internal: definition '"), name.as_str()), "' undeclared"),
                                );
                            },
                        }
                    };
                    let rb = self.compile_expr(expr);
                    let ghost g1 = *self;
                    proof {
                        assert(Self::gen_step(g, rb, g1));
                    }
                    let body = match rb {
                        Ok(b) => b,
                        Err(e) => {
                            proof {
                                assert(Self::defs_lua(g, defs@, i as int, None, *self));
                                assert(Self::gen_step(d, None::<Seq<char>>, *self));
                            }
                            return Err(e);
                        },
                    };
                    out = extend(out, lhs.as_str(), Ghost(head));
                    out = extend(out, " = function() return ", Ghost(head));
                    out = extend(out, body.as_str(), Ghost(head));
                    out = extend(out, " end\n", Ghost(head));
                    proof {
                        let text = lhs@ + " = function() return "@ + body@ + " end\n"@;
                        acc = acc0 + text;
                        assert(out@ =~= prefix + acc);
                        assert forall|rr: Option<Seq<char>>, pp: LuaGen|
                            #[trigger] Self::defs_lua(*self, defs@, i + 1, rr, pp) implies Self::defs_lua(
                                d,
                                defs@,
                                0,
                                match rr {
                                    Some(x) => Some(acc + x),
                                    None => None,
                                },
                                pp,
                            ) by {
                            assert(Self::gen_step(g1, rr, pp));
                            let mapped = match rr {
                                Some(x) => Some(text + x),
                                None => None,
                            };
                            assert(Self::defs_lua(g, defs@, i as int, mapped, pp));
                            match rr {
                                Some(x) => {
                                    assert(acc0 + (text + x) =~= acc + x);
                                },
                                None => {},
                            }
                        }
                    }
                },
                IrDef::Native { name, arity } => {
                    let ghost before = out@;
                    let ghost mut text: Seq<char> = Seq::empty();
                    if split_once_sep(name.as_str()).is_some() {
                        let (left_lua, access) = match self.qualified_for(name.as_str()) {
                            Ok(x) => x,
                            Err(e) => {
                                proof {
                                    assert(Self::defs_lua(g, defs@, i as int, None, *self));
                                    assert(Self::gen_step(d, None::<Seq<char>>, *self));
                                }
                                return Err(e);
                            },
                        };
                        if !is_prelude_native(name.as_str()) {
                            out = extend(out, native_stub(name.as_str()).as_str(), Ghost(head));
                        }
                        out = extend(out, left_lua.as_str(), Ghost(head));
                        out = extend(out, access.as_str(), Ghost(head));
                        out = extend(out, " = ", Ghost(head));
                        out = extend(out, native_body(name.as_str(), *arity).as_str(), Ghost(head));
                        out = extend(out, "\n", Ghost(head));
                        proof {
                            text = stub_for(name@, false) + left_lua@ + access@ + " = "@ + native_body_of(name@, *arity as nat)
                                + "\n"@;
                            assert(out@ =~= before + text);
                            acc = acc0 + text;
                        }
                    } else {
                        let lua_name = match self.env.lookup(name.as_str()) {
                            Some(l) => l,
                            None => {
                                proof {
                                    assert(Self::defs_lua(g, defs@, i as int, None, *self));
                                    assert(Self::gen_step(d, None::<Seq<char>>, *self));
                                }
                                return Err(
                                    concat(&concat(&owned("parlance_lua: internal: definition '"), name.as_str()), "' undeclared"),
                                );
                            },
                        };
                        if !is_prelude_native(name.as_str()) && !seq_eq_str(name, "table") {
                            out = extend(out, native_stub(name.as_str()).as_str(), Ghost(head));
                        }
                        out = extend(out, native_wrapper(lua_name.as_str(), name.as_str(), *arity).as_str(), Ghost(head));
                        proof {
                            text = stub_for(name@, true) + lua_name@ + " = "@ + native_body_of(name@, *arity as nat) + "\n"@;
                            assert(out@ =~= before + text);
                            acc = acc0 + text;
                        }
                    }
                    proof {
                        assert(out@ =~= prefix + acc);
                        assert forall|rr: Option<Seq<char>>, pp: LuaGen|
                            #[trigger] Self::defs_lua(*self, defs@, i + 1, rr, pp) implies Self::defs_lua(
                                d,
                                defs@,
                                0,
                                match rr {
                                    Some(x) => Some(acc + x),
                                    None => None,
                                },
                                pp,
                            ) by {
                            assert(Self::gen_step(g, rr, pp));
                            let mapped = match rr {
                                Some(x) => Some(text + x),
                                None => None,
                            };
                            assert(Self::defs_lua(g, defs@, i as int, mapped, pp));
                            match rr {
                                Some(x) => {
                                    assert(acc0 + (text + x) =~= acc + x);
                                },
                                None => {},
                            }
                        }
                    }
                },
                IrDef::Infix { .. } => {
                    proof {
                        assert forall|rr: Option<Seq<char>>, pp: LuaGen|
                            #[trigger] Self::defs_lua(*self, defs@, i + 1, rr, pp) implies Self::defs_lua(
                                d,
                                defs@,
                                0,
                                match rr {
                                    Some(x) => Some(acc + x),
                                    None => None,
                                },
                                pp,
                            ) by {
                            assert(Self::defs_lua(g, defs@, i as int, rr, pp));
                        }
                    }
                },
            }
            i = i + 1;
        }
        proof {
            assert(Self::defs_lua(*self, defs@, i as int, Some(Seq::<char>::empty()), *self));
            assert(acc + Seq::<char>::empty() =~= acc);
            assert(Self::gen_step(d, Some(acc), *self));
        }
        let ghost before_entry = out@;
        match entry_point {
            Some(entry) => {
                match self.env.lookup(entry) {
                    Some(lua) => {
                        let ghost before = out@;
                        out = extend(out, "-- entry point\n", Ghost(head));
                        out = extend(out, lua.as_str(), Ghost(head));
                        out = extend(out, "()\n", Ghost(head));
                        proof {
                            let suffix = "-- entry point\n"@ + lua@ + "()\n"@;
                            assert(out@ =~= before + suffix);
                            assert(out@.subrange(out@.len() - suffix.len(), out@.len() as int) =~= suffix);
                            assert(ends_with(out@, suffix));
                            assert(Env::lookup_in(self.scope_maps(), entry@) == Some(lua@));
                        }
                    },
                    None => {
                        assert(Env::lookup_in(self.scope_maps(), entry@) is None);
                    },
                }
            },
            None => {},
        }
        proof {
            assert(out@ =~= prefix + acc + entry_text(
                self.env.scope_maps(),
                match entry_point {
                    Some(e) => Some(e@),
                    None => None,
                },
            ));
        }
        Ok(out)
    }
}

/// `s` ends with `suffix`.
pub open spec fn ends_with(s: Seq<char>, suffix: Seq<char>) -> bool {
    s.len() >= suffix.len() && s.subrange(s.len() - suffix.len(), s.len() as int) == suffix
}

fn extend(out: String, x: &str, head: Ghost<Seq<char>>) -> (r: String)
    requires
        is_prefix_of_text(head@, out@),
    ensures
        r@ == out@ + x@,
        is_prefix_of_text(head@, r@),
{
    let r = concat(&out, x);
    proof {
        assert(r@.subrange(0, head@.len() as int) =~= out@.subrange(0, head@.len() as int));
    }
    r
}

/// The first line of every generated file.
pub open spec fn header_text() -> Seq<char> {
    "-- Generated by parlance_lua (Parlance IR -> Lua).\n"@
}

pub open spec fn is_prefix_of_text(a: Seq<char>, b: Seq<char>) -> bool {
    a.len() <= b.len() && b.subrange(0, a.len() as int) == a
}

/// The name a definition declares, if it declares one.
pub open spec fn def_name(d: IrDef) -> Option<Seq<char>> {
    match d {
        IrDef::Bind { name, .. } => Some(name@),
        IrDef::Native { name, .. } => Some(name@),
        IrDef::Infix { .. } => None,
    }
}

/// A qualified definition name with an empty side of its first `::`.
pub open spec fn def_name_malformed(d: IrDef) -> bool {
    match def_name(d) {
        Some(n) => match split_sep(n) {
            Some((l, rt)) => l.len() == 0 || rt.len() == 0,
            None => false,
        },
        None => false,
    }
}

fn contains_string(v: &Vec<String>, s: &String) -> (b: bool)
    ensures
        b == exists|i: int| 0 <= i < v@.len() && (#[trigger] v@[i])@ == s@,
{
    let mut i: usize = 0;
    while i < v.len()
        invariant
            i <= v@.len(),
            forall|j: int| 0 <= j < i ==> (#[trigger] v@[j])@ != s@,
        decreases v@.len() - i,
    {
        if str_eq(&v[i], s) {
            return true;
        }
        i = i + 1;
    }
    false
}

/// The table and access chain first recorded, from the `j`-th on, for the
/// qualified definition `name`.
pub open spec fn qualified_from(q: Seq<(Seq<char>, Seq<char>, Seq<char>)>, name: Seq<char>, j: int) -> Option<
    (Seq<char>, Seq<char>),
>
    decreases q.len() - j,
{
    if j < 0 || j >= q.len() {
        None
    } else if q[j].0 == name {
        Some((q[j].1, q[j].2))
    } else {
        qualified_from(q, name, j + 1)
    }
}

/// The names, separated by `, `.
pub open spec fn joined(names: Seq<Seq<char>>) -> Seq<char>
    decreases names.len(),
{
    if names.len() == 0 {
        Seq::empty()
    } else if names.len() == 1 {
        names[0]
    } else {
        joined(names.drop_last()) + ", "@ + names.last()
    }
}

/// The forward declaration of every defined name, if there is one.
pub open spec fn forward_text(names: Seq<Seq<char>>) -> Seq<char> {
    if names.len() == 0 {
        Seq::empty()
    } else {
        "-- forward declarations\nlocal "@ + joined(names) + "\n"@
    }
}

/// The creation of each table of qualified definitions.
pub open spec fn tables_text(tables: Seq<Seq<char>>) -> Seq<char>
    decreases tables.len(),
{
    if tables.len() == 0 {
        Seq::empty()
    } else {
        tables_text(tables.drop_last()) + "-- table for ::-qualified definitions\n"@ + tables.last() + " = {}\n"@
    }
}

/// The call of the entry point, where it is a defined name.
pub open spec fn entry_text(maps: Seq<Map<Seq<char>, Seq<char>>>, entry: Option<Seq<char>>) -> Seq<char> {
    match entry {
        Some(e) => match Env::lookup_in(maps, e) {
            Some(l) => "-- entry point\n"@ + l + "()\n"@,
            None => Seq::empty(),
        },
        None => Seq::empty(),
    }
}

/// The unknown-native stub that a native outside the prelude gets.
pub open spec fn stub_for(name: Seq<char>, plain: bool) -> Seq<char> {
    if prelude_natives().contains(name) || (plain && name == "table"@) {
        Seq::empty()
    } else {
        native_stub_of(name)
    }
}

/// Two requests for different names, one after the other, never get the
/// same Lua name.
pub proof fn law_fresh_names_differ(
    e0: Env,
    e1: Env,
    e2: Env,
    x: Seq<char>,
    y: Seq<char>,
    a: Seq<char>,
    b: Seq<char>,
)
    requires
        Env::fresh_step(e0, x, a, e1),
        Env::fresh_step(e1, y, b, e2),
        x != y,
    ensures
        a != b,
{
}

proof fn lemma_strs_contains(v: Seq<String>, x: Seq<char>)
    ensures
        LuaGen::strs(v).to_set().contains(x) <==> exists|j: int| 0 <= j < v.len() && (#[trigger] v[j])@ == x,
{
    let m = LuaGen::strs(v);
    if m.to_set().contains(x) {
        let k = choose|k: int| 0 <= k < m.len() && m[k] == x;
        assert(v[k]@ == x);
    }
    if exists|j: int| 0 <= j < v.len() && (#[trigger] v[j])@ == x {
        let j = choose|j: int| 0 <= j < v.len() && (#[trigger] v[j])@ == x;
        assert(m[j] == x);
    }
}

/// After a push, the texts are the old ones and the new one.
proof fn lemma_strs_push_set(v: Seq<String>)
    requires
        v.len() > 0,
    ensures
        LuaGen::strs(v).to_set() == LuaGen::strs(v.drop_last()).to_set().insert(v.last()@),
{
    let a = LuaGen::strs(v);
    let b = LuaGen::strs(v.drop_last());
    assert(a =~= b.push(v.last()@));
    assert forall|x: Seq<char>| a.to_set().contains(x) <==> b.to_set().insert(v.last()@).contains(x) by {
        if a.to_set().contains(x) && x != v.last()@ {
            let k = choose|k: int| 0 <= k < a.len() && a[k] == x;
            assert(b[k] == x);
        }
        if b.to_set().contains(x) {
            let k = choose|k: int| 0 <= k < b.len() && b[k] == x;
            assert(a[k] == x);
        }
        if x == v.last()@ {
            assert(a[b.len() as int] == x);
        }
    }
    assert(a.to_set() =~= b.to_set().insert(v.last()@));
}

/// Lua source for `defs`, calling `entry_point` at the end when it names a
/// definition. A malformed `::` name is an error.
pub fn compile(defs: &[IrDef], entry_point: Option<&str>) -> (r: Result<String, String>)
    ensures
        r matches Ok(out) ==> is_prefix_of_text(header_text() + preamble_text(), out@),
        (exists|i: int| 0 <= i < defs@.len() && #[trigger] def_name_malformed(defs@[i])) ==> r is Err,
        exists|g: LuaGen, post: LuaGen|
            #[trigger] LuaGen::gen_step(g, r, post) && g.is_new() && LuaGen::program_lua(
                g,
                defs@,
                match entry_point {
                    Some(e) => Some(e@),
                    None => None,
                },
                r,
                post,
            ),
{
    let mut generator = LuaGen::new();
    let ghost g = generator;
    let r = generator.compile_program(defs, entry_point);
    proof {
        assert(LuaGen::gen_step(g, r, generator));
    }
    r
}

} // verus!
