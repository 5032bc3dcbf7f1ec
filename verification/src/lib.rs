//! An in-memory key-value store speaking the RESP wire protocol.
//!
//! The crate is split along the protocol pipeline: `protocol` holds the
//! incremental codec for the wire format, `command` turns a decoded value
//! into a validated command, `store` executes commands against the table,
//! and `conn` drives one request through all three.

pub mod command;
pub mod conn;
pub mod protocol;
pub mod store;
