//! The standard library's host functions for the interpreter, and the
//! built-in `print` for the compiler.

use vstd::prelude::*;

use crate::compiler::BytecodeFunction;
use crate::interpreter::{BindingValue, Native};
use crate::prelude::{builtin_name, Builtin};
use crate::text::owned;

verus! {

/// The true branch of `if`: takes the then-branch (evaluated), then ignores
/// the else-branch.
pub fn parlance_control_if_true() -> (v: BindingValue)
    ensures
        v == BindingValue::NativeFunction(Native::IfTrue),
{
    BindingValue::NativeFunction(Native::IfTrue)
}

/// The false branch of `if`: ignores the then-branch, then takes the
/// else-branch (evaluated).
pub fn parlance_control_if_false() -> (v: BindingValue)
    ensures
        v == BindingValue::NativeFunction(Native::IfFalse),
{
    BindingValue::NativeFunction(Native::IfFalse)
}

/// `std::control::if`: a `false` condition picks the false branch, any
/// other value the true branch.
pub fn parlance_control_if() -> (v: BindingValue)
    ensures
        v == BindingValue::NativeFunction(Native::StdControlIf),
{
    BindingValue::NativeFunction(Native::StdControlIf)
}

/// `std::parser::whitespace`: a string without its leading whitespace.
pub fn parlance_parser_whitespace() -> (v: BindingValue)
    ensures
        v == BindingValue::NativeFunction(Native::ParserWhitespace),
{
    BindingValue::NativeFunction(Native::ParserWhitespace)
}

/// `std::parser::text`: a string up to its first whitespace.
pub fn parlance_parser_text() -> (v: BindingValue)
    ensures
        v == BindingValue::NativeFunction(Native::ParserText),
{
    BindingValue::NativeFunction(Native::ParserText)
}

/// `std::string::concat`: two strings, one after the other.
pub fn parlance_string_concat() -> (v: BindingValue)
    ensures
        v == BindingValue::NativeFunction(Native::StringConcat),
{
    BindingValue::NativeFunction(Native::StringConcat)
}

/// The built-in `print`, bound to the name `print`.
#[derive(Debug, Clone, Copy)]
pub struct Print;

impl Print {
    pub fn bytecode_function(&self) -> (f: BytecodeFunction)
        ensures
            f.name@ == "print"@,
            f.build == Builtin::IoPrint,
    {
        BytecodeFunction { name: owned("print"), build: Builtin::IoPrint }
    }
}

} // verus!
