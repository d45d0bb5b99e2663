//! A service that tickets cars for speeding.
//!
//! Cameras report the plates that they see, and dispatchers take the tickets
//! for the roads that they look after. `wire` is the layout of the messages,
//! `bio` reads and writes them, and `message` reads them from a stream of
//! bytes. `clients` is one connection, `obs` the record of one car, `events`
//! what clients tell the server, `server` what the server does about it, and
//! `laws` what holds of it as a whole. `plain` says what the messages are byte
//! by byte, and `error` is what can go wrong.

pub mod bio;
pub mod clients;
pub mod error;
pub mod events;
pub mod laws;
pub mod message;
pub mod obs;
pub mod plain;
pub mod server;
pub mod wire;
