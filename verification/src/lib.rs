//! Text analysis for ignore-pattern files: a text buffer with offset and
//! position mapping, a recovering parser, the span-annotated parse tree, the
//! syntax tree derived from it, and the completion and diagnostic logic built
//! on top of them.

pub mod ast;
pub mod backend;
pub mod features;
pub mod file;
pub mod grammar;
pub mod parser;
pub mod patterns;
pub mod span;
pub mod text;
pub mod token;
pub mod workspace;
