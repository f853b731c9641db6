//! What is decided about Kafka messages.

use crate::codec::str_of_utf8;
use vstd::prelude::*;
use vstd::utf8::{decode_utf8, valid_utf8};

verus! {

/// Why a message has no text.
#[derive(Clone, Copy, Debug, PartialEq, Eq, Structural)]
pub enum PayloadError {
    /// The message has no payload.
    MissingPayload,
    /// The payload is not valid UTF-8.
    InvalidUtf8,
}

/// The text of a message's payload, from which a log event is read.
pub fn payload_text<'a>(payload: Option<&'a [u8]>) -> (text: Result<&'a str, PayloadError>)
    ensures
        match payload {
            None => text == Err::<&'a str, PayloadError>(PayloadError::MissingPayload),
            Some(bytes) => if valid_utf8(bytes@) {
                text matches Ok(t) && t@ == decode_utf8(bytes@)
            } else {
                text == Err::<&'a str, PayloadError>(PayloadError::InvalidUtf8)
            },
        },
{
    match payload {
        None => Err(PayloadError::MissingPayload),
        Some(bytes) => match str_of_utf8(bytes) {
            Some(text) => Ok(text),
            None => Err(PayloadError::InvalidUtf8),
        },
    }
}

} // verus!
