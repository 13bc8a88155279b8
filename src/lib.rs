//! A bytecode compiler core for a small functional language: an AST front-end,
//! a deduplicating constant pool and a jump-patching emitter.
pub mod ast;
pub mod bytecode;
pub mod compiler;
pub mod error;
pub mod layout;
pub mod names;
pub mod prelude;
pub mod relocate;
pub mod tokens;
