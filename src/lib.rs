//! A small server for the Redis serialization protocol (RESP2): a codec for
//! RESP values, a parser for the PING / GET / SET commands, an in-memory
//! key-value store and the per-request step of a connection handler.
#![allow(non_snake_case)]

pub mod codec;
pub mod command;
pub mod decimal;
pub mod laws;
pub mod server;
pub mod store;
pub mod value;
