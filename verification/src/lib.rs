//! State synchronisation for a small multiplayer session: the registry of live
//! participants, the per-connection outbound queues with their broadcast rule,
//! the session manager that ties the two together, and the wire codec.
//!
//! Floating-point attributes are carried as their IEEE-754 bit patterns, so
//! that equality of two records is equality of bits.

pub mod participant;
pub mod message;
pub mod wire;
pub mod codec;
pub mod registry;
pub mod outbound;
pub mod session;
