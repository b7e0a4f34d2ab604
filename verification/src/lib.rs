//! A sharded in-memory key-value store served over TCP.
//!
//! The verified core of the server: the request and reply messages, the
//! store that each database worker owns, the length-prefixed framing used on
//! the wire, and the rules that send a request to the worker owning its key.
pub mod client;
pub mod command;
pub mod connection;
pub mod kv;
pub mod protos;
pub mod runtime;
