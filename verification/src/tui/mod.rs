//! What the terminal interface shows: styled text, tables and code blocks.
pub mod cache;
pub mod code;
pub mod date_laws;
pub mod engine;
pub mod highlight_laws;
pub mod style;
pub mod syntax;
pub mod terminal_compat;
pub mod theme;
pub mod theme_dates;
pub mod ui;
