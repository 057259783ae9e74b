//! Volar IR: typed and boolean SSA block IRs, their circuits, text formats,
//! region side tables, recorded low-level modules and the virtualisation pass.

pub mod common;
pub mod sorted;
pub mod ir;
pub mod boolar;
pub mod fmt;
pub mod rcircuit;
pub mod circuit;
pub mod public;
pub mod region;
pub mod gadget;
pub mod typed_region;
pub mod typed_gadget;
pub mod lazy;
pub mod text;
pub mod virt;
pub mod lir;
pub mod vars;
pub mod stmt_vars;
pub mod shape_law;
pub mod region_law;
pub mod typed_region_law;
