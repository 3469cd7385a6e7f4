//! Laying out and drawing text.
pub mod columns;
pub mod frame_laws;
pub mod inline;
pub mod row_laws;
pub mod table;
pub mod table_laws;
pub mod text_laws;
pub mod util;
