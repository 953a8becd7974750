//! A minimal key/value store that speaks the Redis protocol.

pub mod arrays;
pub mod bytes;
pub mod command;
pub mod connection;
pub mod inline;
pub mod multibulk;
pub mod pattern;
pub mod promises;
pub mod reply;
pub mod request;
pub mod server;
pub mod session;
pub mod store;
pub mod stream;
pub mod text;
pub mod typed;
pub mod wire;
