//! Extraction of named fields from lines of text, driven by a template of
//! literal separators and `{name}` placeholders.
//!
//! A template compiles into segments, each a capture name and the literal that
//! closes the capture. Every literal gets a prefix-function automaton, so a line
//! is scanned for it in linear time.

pub mod automaton;
pub mod line;
pub mod matcher;
pub mod template;
pub mod text;

pub use automaton::{Expr, StatePoint};
pub use line::{extract, format_field, parse_str};
pub use matcher::Matcher;
pub use template::{TemplateError, parse_expr};
