//! A QUIC-style transport codec and stream reassembler.
//!
//! The crate turns raw datagrams into structured packets (a header plus a
//! payload of frames) and back, and rebuilds ordered byte streams from
//! out-of-order, possibly duplicated STREAM frame deliveries.  Every codec is
//! specified down to the byte: encoders state the exact wire image they
//! produce, decoders state the exact value recovered from a buffer, and the
//! round-trip and length-probe laws are proved as lemmas.

pub mod error;
pub mod frames;
pub mod header;
pub mod packet;
pub mod stream;
pub mod util;
pub mod wire;
