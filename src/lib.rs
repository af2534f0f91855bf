//! A small key-value service: a wire codec for a length-prefixed text
//! protocol, a command interpreter, a store with lazy time-based expiry,
//! and the per-connection buffering that ties them together.
pub mod codec;
pub mod command;
pub mod connection;
pub mod store;
pub mod text;
