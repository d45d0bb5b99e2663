//! The packets of the session protocol, taken apart once and for all.

pub mod pkt;
