//! What an editor asks of a parsed document: completions and diagnostics.

pub mod completions;
pub mod diagnostics;
