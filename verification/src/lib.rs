//! A compiler backend for a small SSA intermediate representation: textual IR
//! lexing and parsing, printing, function-local optimisation, RISC-V 64
//! instruction selection, linear-scan register allocation, machine-code
//! emission, and an interpreter for the emitted code.

pub mod text;
pub mod types;
pub mod arena;
pub mod inst;
pub mod function;
pub mod module;
pub mod riscv;
pub mod emit;
pub mod select;
pub mod vm;
pub mod lexer;
pub mod lex_laws;
pub mod parser;
pub mod printer;
pub mod opt;
pub mod regalloc;
pub mod pipeline;
pub mod alloc_laws;
pub mod load_laws;
pub mod isa_laws;
pub mod meaning_laws;
