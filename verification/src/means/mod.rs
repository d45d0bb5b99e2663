//! A service that keeps prices over time and tells their averages.
//!
//! `msg` holds the messages, and `prices` the record of one client.

pub mod msg;
pub mod prices;
