//! A small RESP (Redis serialization protocol) server core: a byte cursor, the
//! RESP codec, the command interpreter, the key-value store with expiry, the
//! configuration settings and the per-request reply logic.

pub mod cli;
pub mod commands;
pub mod config;
pub mod cursor;
pub mod decimal;
pub mod kv;
pub mod resp;
pub mod round_trip;
pub mod server;
pub mod syntax;
