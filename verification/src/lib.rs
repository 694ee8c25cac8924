//! A small Redis-compatible server: the RESP frame codec, command parsing
//! and the key-value store that executes the commands.
pub mod args;
pub mod buffers;
pub mod command;
pub mod connection;
pub mod cursor;
pub mod db;
pub mod decimal;
pub mod frame;
pub mod frame_laws;
pub mod parse;
pub mod server;
pub mod store_laws;
pub mod text;
