//! Virtualisation: a module of many blocks becomes a bounded set of handlers
//! and an interpreter loop that fetches handlers and their operands from a
//! bytecode table.

pub mod remap;
pub mod canon;
pub mod adaptive_cfg;
pub mod bytecode;
pub mod ctx;
pub mod config;
pub mod layout;
pub mod cse;
pub mod regs;
pub mod schema;
pub mod hash;
pub mod emit;
pub mod hash_xor;
pub mod hash_sip;
pub mod handler;
pub mod module;
pub mod preinit;
pub mod ir;
pub mod cfg_hints;
pub mod split;
pub mod pieces;
pub mod adaptive_emit;
pub mod bir;
pub mod bir_run;
pub mod ir_run;
pub mod ir_sim;
pub mod ir_law;
pub mod hash_law;
pub mod check_law;
pub mod access_law;
pub mod split_law;
pub mod plan_law;
pub mod digest_law;
pub mod rename_law;
