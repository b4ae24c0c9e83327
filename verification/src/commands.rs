//! The fixed command set: one handler per command.
pub mod echo;
pub mod get;
pub mod ping;
pub mod set;
