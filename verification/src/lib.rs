//! An in-memory key-value store speaking a Redis-like wire protocol.
//!
//! The crate is organised around three verified cores: the binary protocol
//! codec ([`resp`]), the expiring key-value store ([`storage`]), and the
//! command dispatcher ([`server`] together with [`commands`]). Network and
//! timer plumbing live outside the library and hand these functions plain
//! values.
pub mod commands;
pub mod connection;
pub mod resp;
pub mod resp_laws;
pub mod resp_result;
pub mod resp_spec;
pub mod server;
pub mod server_result;
pub mod set;
pub mod storage;
pub mod storage_result;
pub mod text;
