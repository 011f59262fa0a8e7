//! An authoritative DNS responder core: a wire-format codec for single-question
//! DNS messages, a read-only zone table with case-insensitive lookup, and the
//! request/response logic that ties them together.
//!
//! The transport (UDP socket handling) and zone-file loading live outside this
//! library; it works on plain byte buffers and returns owned byte buffers.

pub mod codec;
pub mod name;
pub mod responder;
pub mod types;
pub mod zone;
