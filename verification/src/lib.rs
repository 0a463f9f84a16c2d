//! A compiler for `.ui` component files and the pieces of its runtime
//! that do not depend on the host: the tokenizer, the parser, the
//! type checker, diagnostics, and the runtime's ABI bookkeeping.

pub mod text;
pub mod source_file;
pub mod issue;
pub mod tokens;
pub mod ast;
pub mod table;
pub mod parser;
pub mod scope;
pub mod checker;
pub mod codegen;
pub mod abi;
pub mod pipeline;
pub mod loader;
pub mod property;
