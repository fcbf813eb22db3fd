//! A byte-stuffing framing codec.
//!
//! An arbitrary binary payload is turned into a self-delimited frame for a
//! byte-oriented serial link, and back. The frame starts and ends with the
//! frame boundary marker `0x7E`; payload bytes that collide with a reserved
//! value are replaced inline by a two-byte escape sequence, so the boundary
//! marker can never be mistaken for payload data. Both directions write into
//! a bounded, append-only output buffer and report overflow instead of
//! allocating without bound.

pub mod buffer;
pub mod codec;
pub mod error;
pub mod escape;
pub mod framing;
pub mod laws;

pub use buffer::BoundedBuffer;
pub use codec::decode;
pub use codec::encode;
pub use error::HDLCError;
pub use escape::ESCAPE_MARKER;
pub use escape::FRAME_BOUNDARY_MARKER;
pub use escape::forward_lookup;
pub use escape::reverse_lookup;
