//! Client-side engine for a TCP bridge to a publish/subscribe message bus.
//!
//! The bridge speaks a length-prefixed, JSON-encoded framing protocol: each
//! frame is a 4-byte big-endian payload length followed by that many bytes of
//! UTF-8 JSON text.  This crate holds the protocol logic: the JSON value
//! codec, the envelope codec, the frame transport, and the routing engine
//! that demultiplexes inbound frames to per-address consumer queues.

pub mod framing;
pub mod listener;
pub mod message;
pub mod publisher;
pub mod json;

pub use json::JsonValue;
pub use listener::{ErrorConsumer, EventBusListener, MessageConsumer};
pub use message::{
    ErrorMessage, FrameTooLarge, InMessage, Message, OutMessage, ProtocolDecodeError,
    RegisterMessage, SendMessage, TransportErrorKind, UserMessage,
};
pub use publisher::EventBusPublisher;
