//! Re-indents brace-delimited macro blocks inside a buffer of text lines.
use vstd::prelude::*;

pub mod text;
pub mod spans;
pub mod indent;

verus! {

/// The token that marks a line as the start of a macro block.
pub const MACRO: &'static str = "html!";

/// The character that opens a nested block.
pub const OPEN: char = '{';

/// The character that closes a nested block.
pub const CLOSE: char = '}';

/// The number of spaces added per nesting level.
pub const INDENT: usize = 4;

/// A line starting with this prefix is ignored when looking for blocks.
pub const COMMENT: &'static str = "//";

} // verus!
