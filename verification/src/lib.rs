//! Codec for the AMQP 1.0 type system: a self-describing value model and its
//! standard binary wire representation, together with helpers for building and
//! consuming described-list composites such as frame bodies and the AMQP error
//! condition.

pub mod error;
pub mod types;
pub mod wire;
pub mod codec;
pub mod frame_codec;
