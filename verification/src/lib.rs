//! Viper: a small Python interpreter. Lexer, parser, bytecode compiler with a
//! peephole optimizer, a bytecode VM and a tree-walking interpreter.
pub mod symbol;
pub mod text;
pub mod token;
pub mod lexer;
pub mod ast;
pub mod grammar;
pub mod parser;
pub mod float;
pub mod bytecode;
pub mod codegen;
pub mod compiler;
pub mod stack;
pub mod frames;
pub mod ops;
pub mod vm;
pub mod builtins;
pub mod interpreter;
pub mod interp_ops;
pub mod interp_builtins;
pub mod semantics;
pub mod bench_programs;
pub mod repl;
pub mod laws;
