//! A spreadsheet computation engine: formula text is parsed into an expression
//! tree, evaluated against a grid of cells, and an edit recomputes the cells
//! that read the edited one.
pub mod models;
pub mod number;
pub mod parser;
pub mod service;
pub mod text;
