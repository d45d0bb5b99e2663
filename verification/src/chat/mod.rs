//! A chat room with lines of text.
//!
//! `message` holds what passes between the clients and the room, `client` one
//! connection, `room` who is there and what everybody is told, and `laws` what
//! holds of a connection from its beginning to its end.

pub mod client;
pub mod laws;
pub mod message;
pub mod room;
