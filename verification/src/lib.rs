//! Line matching against a small pattern language.
//!
//! A pattern string is compiled once into a sequence of nodes; the sequence
//! is then matched against any number of lines. The language has literal
//! characters, the digit and word classes, bracket classes, the two
//! anchors, the wildcard, the quantifiers `+` and `?`, and groups of
//! alternatives.
//!
//! [`build_patterns`] compiles a pattern string, and [`match_pattern`]
//! decides whether some part of a line matches the compiled pattern. The
//! modules hold the parts: the nodes and their model, the grammar and the
//! compiler, the matcher, the language that a pattern describes, and the
//! laws that hold of them.

pub mod chars;
pub mod compiler;
pub mod language;
pub mod laws;
pub mod matcher;
pub mod pattern;

pub use compiler::{build_patterns, CompileError};
pub use matcher::match_pattern;
pub use pattern::Pattern;
