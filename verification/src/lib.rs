//! # treemd
//!
//! A markdown navigator library with tree-based structural navigation and syntax highlighting.
//!
//! The library takes the headings of a markdown document and says what follows
//! from them: the heading tree, the sections and their line ranges. It draws
//! heading trees, tables and code blocks as styled text for a terminal.
//!
//! - [`parser`]: documents, their heading tree and their sections
//! - [`tui`]: styled text, tables and highlighted code
//! - [`text`]: what both do with characters
//!
//! Every function states in its contract what it returns. Properties of several
//! functions together are proof functions whose names start with `law_`.

pub mod parser;
pub mod text;
pub mod tui;

pub use parser::document::Document;
pub use parser::heading::{Heading, HeadingNode};
