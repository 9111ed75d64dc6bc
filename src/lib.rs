//! A compiler from LKQL syntax trees to LuaJIT bytecode.
//!
//! `lkqlc::ir` holds the machine-independent instructions and the jump
//! resolution, `lkqlc::bc` the bytecode encoder, `lkqlc::env` the register
//! allocator and lexical environment, `lkqlc::nodes` the per-node compilation
//! rules, and `lkqlc` the syntax-tree model and the entry points.
pub mod errors;
pub mod lkqlc;
