//! A verified Brainfuck toolchain: a parser that folds runs and precomputes a
//! matched-bracket jump table, a step-wise interpreter with an optional
//! profiler, a debugger with breakpoints and memory dumps, and an AST-based
//! code generator for an ARM64 target.

pub mod ast;
pub mod codegen;
pub mod debugger;
pub mod equivalence;
pub mod io;
pub mod jit;
pub mod opcode;
pub mod program;
pub mod semantics;
pub mod text;
pub mod vm;
