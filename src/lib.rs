//! Decoding of the initial server handshake of the MySQL wire protocol.
//!
//! [`frame::frame_packet`] cuts one length-prefixed packet out of a byte
//! stream that may still be growing, and [`handshake::decode_handshake`]
//! reads the payload of the first packet as a protocol version 10 handshake.
//! [`handshake::parse_handshake`] does both in turn on a caller's cursor.

pub mod frame;
pub mod handshake;

pub use frame::{frame_packet, Frame, Packet};

pub use handshake::{combine_capability_flags, decode_handshake, parse_handshake, Handshake, HandshakeError};
