//! Calls into a code generator: the interface, a recorder, and replay.

pub mod target;
pub mod saved;
pub mod recording;
pub mod record_law;
