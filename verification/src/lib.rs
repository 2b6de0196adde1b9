//! A bounded, chunk-agnostic symbol stream generator.
//!
//! A finite supply of identical fixed-width symbols is served to readers
//! through arbitrary sequences of variable-sized, possibly misaligned read
//! requests. Every symbol is delivered as a contiguous, byte-exact unit
//! across request boundaries, the total number of bytes ever delivered never
//! exceeds `supply * width`, and the supply can be shared safely across
//! concurrent readers.
//!
//! - [`model`] holds the mathematical model of the algorithm: what a read
//!   delivers, what it charges against the supply, and the laws of a session
//!   (conservation, zero-termination, alignment independence).
//! - [`supply`] holds the two supply counters: a private one with exact
//!   contracts, and a shared one whose reservations are atomic.
//! - [`server`] holds the read-serving algorithm itself and the session
//!   around it.

pub mod model;
pub mod server;
pub mod supply;
