pub mod span;
pub mod text;
pub mod lines;
pub mod source;
pub mod error;
pub mod format;
pub mod bytes;
pub mod bytecode;
pub mod mubc;
pub mod validate;
pub mod roundtrip;
pub mod framing;
pub mod runtime;
pub mod natives;
pub mod policy;
pub mod autodiff;
pub mod optim;
pub mod shape;
pub mod jit;
pub mod builtins;
pub mod semantics;
pub mod ast;
pub mod project;
pub mod vm;
pub mod interp;
pub mod document;
pub mod lexer;
pub mod parser;
pub mod typecheck;
pub mod frontend;
pub mod growth;
pub mod compiler;
pub mod cli;
