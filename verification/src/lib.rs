//! A compiler back end for the Tiger language on x86-64: the intermediate
//! representation and its canonical form, stack frames, instruction
//! selection, liveness analysis and register allocation, with what the
//! front end shares with them: symbols, types, environments, the syntax
//! tree and its escape analysis.

pub mod text;
pub mod temp;
pub mod ordset;
pub mod graph;
pub mod ir;
pub mod assem;
pub mod frame;
pub mod codegen;
pub mod canon;
pub mod flow;
pub mod liveness;
pub mod color;
pub mod coverage;
pub mod painting;
pub mod coalescing;
pub mod spill;
pub mod reg_alloc;
pub mod registers;
pub mod simplest_reg_alloc;
pub mod position;
pub mod supply;
pub mod symbol;
pub mod types;
pub mod error;
pub mod ast;
pub mod token;
pub mod escape;
pub mod translate;
pub mod env;
pub mod nasm;
pub mod compile;
