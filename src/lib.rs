//! A small tag=value wire protocol for "spike" events: frame encoding,
//! stream reassembly and frame decoding, with their framing laws.
pub mod clock;
pub mod decoder;
pub mod domain;
pub mod encoder;
pub mod reassembler;
pub mod round_trip;
pub mod wire;

pub use wire::SOH;
