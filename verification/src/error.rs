//! The error type surfaced by the codec.
//!
//! Every fallible operation of the library reports an `AmqpError` carrying an
//! AMQP error-condition name and a human-readable description.  The library
//! itself only ever raises decoding errors (condition `amqp:decode-error`);
//! the strings are diagnostic and not machine-parsed.

use vstd::prelude::*;

verus! {

/// An error raised by the codec: an AMQP error-condition name together with a
/// description of what went wrong.
#[derive(Debug)]
pub struct AmqpError {
    pub condition: String,
    pub description: String,
}

/// Holds when the error carries the AMQP `amqp:decode-error` condition.
pub open spec fn is_decode_error(e: AmqpError) -> bool {
    e.condition@ == "amqp:decode-error"@
}

impl AmqpError {
    /// Builds an error with the given condition name and description.
    pub fn amqp_error(condition: &str, description: &str) -> (r: AmqpError)
        ensures
            r.condition@ == condition@,
            r.description@ == description@,
    {
        AmqpError {
            condition: <String as vstd::string::StringExecFns>::from_str(condition),
            description: <String as vstd::string::StringExecFns>::from_str(description),
        }
    }

    /// Builds an `amqp:decode-error` with the given description.
    pub fn decode_error(description: &str) -> (r: AmqpError)
        ensures
            is_decode_error(r),
            r.description@ == description@,
    {
        AmqpError::amqp_error("amqp:decode-error", description)
    }

    /// The AMQP condition name of this error.
    pub fn condition(&self) -> (r: &String)
        ensures
            r == &self.condition,
    {
        &self.condition
    }

    /// The human-readable description of this error.
    pub fn description(&self) -> (r: &String)
        ensures
            r == &self.description,
    {
        &self.description
    }
}

} // verus!
