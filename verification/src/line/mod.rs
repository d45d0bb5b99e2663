//! A line reversal service over a session protocol of its own on UDP.
//!
//! `types` holds the packets and the responses, `stream` says what the reversed
//! stream is and how it is cut into packets, `lrl` runs one session, `laws` says
//! what holds of it as a whole, `plain` what it is byte by byte, and `router` is
//! the table that takes packets to sessions.

pub mod laws;
pub mod lrl;
pub mod plain;
pub mod router;
pub mod stream;
pub mod types;
