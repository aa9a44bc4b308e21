//! A streaming brace reformatter.
//!
//! Input bytes are rewritten so that every `{` opens an indented block,
//! every `}` closes one, and each line of output starts with one tab per
//! open block in place of whatever leading whitespace the writer used.
//! The filter keeps its nesting depth and cursor mode across calls, so a
//! document may be fed to it in chunks cut at any byte offset.

pub mod laws;
pub mod machine;
