//! Client side of a small binary pub/sub framing protocol.
//!
//! A peer exchanges *frames* over a byte stream.  Every frame starts with a
//! fixed 12-byte header (a 2-byte magic constant, a 2-byte message type
//! identifier and an 8-byte payload length, all big-endian), followed by the
//! payload bytes.  Payload contents are opaque to this crate: the library
//! frames, reassembles and filters them, while the per-type payload codecs
//! live outside.
//!
//! The crate provides:
//! - [`message::write_message`]: turn a typed message into its wire frame;
//! - [`codec::Decoder`]: incrementally reassemble frames from arbitrary
//!   splits of the byte stream;
//! - [`registry::Subscriptions`]: the set of message types currently of
//!   interest;
//! - [`client::Worker`]: the per-connection state machine that applies
//!   commands, emits subscribe directives and gates decoded frames.
//!
//! Socket handling, threads and channels stay outside the crate; they hand
//! byte chunks and commands in and take outbound frames and accepted
//! messages back out.

pub mod client;
pub mod codec;
pub mod directive;
pub mod message;
pub mod registry;
pub mod wire;
