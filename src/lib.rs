//! A file-backed tabular store: an ordered map from row keys to rows of text
//! cells, whose first row names the columns.

pub mod ordered;
pub mod text;
pub mod columns;
pub mod error;
pub mod column_db;
pub mod format;
pub mod laws;
pub mod simple_db;
