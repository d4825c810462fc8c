//! An in-memory key-value and publish/subscribe service speaking a subset
//! of the Redis serialization protocol.
//!
//! The library is free of I/O: it decodes and encodes frames, turns frames
//! into commands, keeps the key-value state with its expiration index and
//! the broadcast channels, and decides what a connection answers. The
//! program around it owns the sockets, the clock and the tasks.

pub mod frame;
pub mod connection;
pub mod parse;
pub mod cmd;
pub mod db;
pub mod subscribed;
pub mod server;

pub use cmd::Command;
pub use connection::Connection;
pub use db::Db;
pub use frame::Frame;
pub use server::DEFAULT_PORT;
