//! Error reports produced by the front end and the compiler.

use vstd::prelude::*;

use crate::text::{concat, decimal, owned, usize_to_decimal};

verus! {

/// A half-open range of byte offsets in a source text.
#[derive(Debug, Clone, Copy)]
pub struct Span {
    pub start: usize,
    pub end: usize,
}

impl Span {
    pub fn new(start: usize, end: usize) -> (s: Span)
        ensures
            s.start == start,
            s.end == end,
    {
        Span { start, end }
    }

    /// The empty span at offset zero.
    pub fn zero() -> (s: Span)
        ensures
            s.start == 0,
            s.end == 0,
    {
        Span { start: 0, end: 0 }
    }
}

impl Default for Span {
    fn default() -> (s: Span)
        ensures
            s.start == 0,
            s.end == 0,
    {
        Span { start: 0, end: 0 }
    }
}

/// Which stage of the pipeline raised a diagnostic.
#[derive(Debug, Clone, Copy, PartialEq, Eq)]
pub enum Origin {
    Compiler,
    Parser,
    Runtime,
}

#[derive(Debug, Clone, Copy, PartialEq, Eq)]
pub enum Severity {
    Error,
}

#[derive(Debug)]
pub struct Diagnostics {
    pub message: String,
    pub severity: Severity,
    pub origin: Origin,
    pub span: Span,
}

pub open spec fn origin_name(o: Origin) -> Seq<char> {
    match o {
        Origin::Compiler => seq!['C', 'o', 'm', 'p', 'i', 'l', 'e', 'r'],
        Origin::Parser => seq!['P', 'a', 'r', 's', 'e', 'r'],
        Origin::Runtime => seq!['R', 'u', 'n', 't', 'i', 'm', 'e'],
    }
}

/// The text that a diagnostic is rendered as:
/// `Parlance <origin> <severity>\n> <message> (<start>:<end>)`.
pub open spec fn rendered(d: Diagnostics) -> Seq<char> {
    seq!['P', 'a', 'r', 'l', 'a', 'n', 'c', 'e', ' '] + origin_name(d.origin) + seq![
        ' ',
        'E',
        'r',
        'r',
        'o',
        'r',
        '\n',
        '>',
        ' ',
    ] + d.message@ + seq![' ', '('] + decimal(d.span.start as nat) + seq![':'] + decimal(
        d.span.end as nat,
    ) + seq![')']
}

impl Diagnostics {
    pub fn parser_error(message: String, span: Span) -> (d: Diagnostics)
        ensures
            d.message == message,
            d.span == span,
            d.severity == Severity::Error,
            d.origin == Origin::Parser,
    {
        Diagnostics { message, span, severity: Severity::Error, origin: Origin::Parser }
    }

    pub fn compiler_error(message: String, span: Span) -> (d: Diagnostics)
        ensures
            d.message == message,
            d.span == span,
            d.severity == Severity::Error,
            d.origin == Origin::Compiler,
    {
        Diagnostics { message, span, severity: Severity::Error, origin: Origin::Compiler }
    }

    /// An error found while a program runs.
    pub fn runtime_error(message: String, span: Span) -> (d: Diagnostics)
        ensures
            d.message == message,
            d.span == span,
            d.severity == Severity::Error,
            d.origin == Origin::Runtime,
    {
        Diagnostics { message, span, severity: Severity::Error, origin: Origin::Runtime }
    }

    /// The human-readable report (what `to_string` printed).
    pub fn render(&self) -> (s: String)
        ensures
            s@ == rendered(*self),
    {
        let head = owned("Parlance ");
        proof {
            reveal_strlit("Parlance ");
            reveal_strlit("Compiler");
            reveal_strlit("Parser");
            reveal_strlit("Runtime");
            reveal_strlit(" Error\n> ");
            reveal_strlit(" (");
            reveal_strlit(":");
            reveal_strlit(")");
        }
        let origin = match self.origin {
            Origin::Compiler => "Compiler",
            Origin::Parser => "Parser",
            Origin::Runtime => "Runtime",
        };
        let s1 = concat(&head, origin);
        let s2 = concat(&s1, " Error\n> ");
        let s3 = concat(&s2, self.message.as_str());
        let s4 = concat(&s3, " (");
        let start = usize_to_decimal(self.span.start);
        let s5 = concat(&s4, start.as_str());
        let s6 = concat(&s5, ":");
        let end = usize_to_decimal(self.span.end);
        let s7 = concat(&s6, end.as_str());
        let s8 = concat(&s7, ")");
        assert(s8@ =~= rendered(*self));
        s8
    }
}

} // verus!
