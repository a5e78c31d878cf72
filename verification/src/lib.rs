//! Indentation normalizer for text that is pasted where every space and every
//! tab renders as one narrow character.
//!
//! Each line's leading run of spaces and tabs is replaced by whole block
//! markers of four spaces; the rest of the line is kept as it is. A tab is
//! worth one block, and so is every full group of `threshold` spaces in a row;
//! spaces short of a full group are dropped.

pub mod document;
pub mod indent;
pub mod laws;
pub mod lines;
pub mod strings;

pub use document::{clipboard_list_to_slack, normalize};
pub use indent::normalize_line;
pub use lines::split_lines;
