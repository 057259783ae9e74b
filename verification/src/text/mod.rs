//! Programs and their side tables as text.

pub mod error;
pub mod lexer;
pub mod pieces;
pub mod fields;
pub mod ir_stmt;
pub mod ir_term;
pub mod traits;
pub mod ir_doc;
pub mod ir;
pub mod bir_stmt;
pub mod bir;
pub mod region_parts;
pub mod regions;
pub mod typed_regions;
pub mod format_law;
pub mod doc_law;
pub mod lexer_law;
pub mod region_format_law;
