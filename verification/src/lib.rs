//! Servers for a set of small network protocols, as verified state machines.
//!
//! Each module holds the rules of one protocol: how its messages are written
//! and read, and what its server answers. Nothing here touches a socket or a
//! clock; the program around the library carries bytes and events in and out.

pub mod bytes;
pub mod chat;
pub mod line;
pub mod lrcp;
pub mod means;
pub mod primes;
pub mod smoke;
pub mod speed;
pub mod table;
pub mod text;
pub mod udp;
