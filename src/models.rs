//! The records that extraction hands back, and the library's error type.
use vstd::prelude::*;

verus! {

/// The syntax family a buffer is written in.
#[derive(Clone, Copy, Debug, PartialEq, Eq, Structural)]
pub enum Language {
    JavaScript,
    TypeScript,
}

/// One extracted unit of source text with its position in the buffer.
#[derive(Clone, Debug, PartialEq, Eq)]
pub struct CodeChunk {
    /// The exact text of the unit.
    pub code: String,
    /// What was matched: `function_declaration`, `class_declaration` or `program`.
    pub node_type: String,
    /// Byte offset of the first byte of `code`.
    pub start_byte: usize,
    /// Byte offset just past the last byte of `code`.
    pub end_byte: usize,
    /// Line feeds before `start_byte`: the 0-based line it lies on.
    pub start_line: usize,
    /// Line feeds before `end_byte` for an extracted block; the number of
    /// lines for a whole-file chunk.
    pub end_line: usize,
    /// Kind of an enclosing construct; never set by this library.
    pub parent_type: Option<String>,
}

/// Why an operation of the library failed.
#[derive(Clone, Debug, PartialEq, Eq)]
pub enum AgentBoosterError {
    /// A boundary pattern could not be compiled; the text says why.
    ParseError(String),
}

} // verus!
