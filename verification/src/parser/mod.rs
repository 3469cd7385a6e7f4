//! Markdown documents and their heading hierarchy.
pub mod document;
pub mod forest;
pub mod heading;
pub mod laws;
pub mod lines;
pub mod output;
pub mod render;
pub mod render_laws;
pub mod section_laws;
