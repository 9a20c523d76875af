//! Parlance: a small functional language compiled to a register bytecode.

pub mod ast;
pub mod codegen;
pub mod compiler;
pub mod desugarer;
pub mod diagnostics;
pub mod flattener;
pub mod imports;
pub mod interpreter;
pub mod lexer;
pub mod ir;
pub mod loader;
pub mod lua;
pub mod manifest;
pub mod names;
pub mod optimize;
pub mod parser;
pub mod resolver;
pub mod script_parser;
pub mod semant;
pub mod stdlib;
pub mod paths;
pub mod program_parser;
pub mod prelude;
pub mod table;
pub mod text;
pub mod tokenizer;
pub mod typecheck;
pub mod types;
pub mod vm;
