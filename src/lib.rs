//! Signaling, address tracking and keepalive logic for an unreliable
//! peer-to-peer data channel.

pub mod address;
pub mod candidate;
pub mod addr_cell;
pub mod session;
pub mod signaling;
pub mod keepalive;
pub mod echo;
