//! The errors that the library returns, and their messages.
use vstd::prelude::*;

use crate::text::{bytes_debug, push_bytes_debug};

verus! {

/// What kind of input/output failure occurred.
#[derive(Debug, Clone, Copy, PartialEq, Eq, Structural)]
pub enum IoErrorKind {
    InvalidInput,
    InvalidData,
    Other,
}

/// Errors that the library returns.
#[derive(Debug)]
#[allow(inconsistent_fields)]
pub enum InstrumentError {
    /// The message received from the instrument could not be converted into the specified type.
    BadInstrumentResponseString { msg: String },
    /// The bytes received from the instrument could not be converted into the specified type.
    BadInstrumentResponseVecU8 { msg: Vec<u8> },
    /// Communicating with the device failed.
    Io { kind: IoErrorKind, message: String },
}

/// The message of an error.
pub open spec fn instrument_error_message(e: InstrumentError) -> Seq<char> {
    match e {
        InstrumentError::BadInstrumentResponseString { msg } => "Could not convert the message received from the instrument "@
            + msg@ + " into the specified type."@,
        InstrumentError::BadInstrumentResponseVecU8 { msg } => "Could not convert the message received from the instrument "@
            + bytes_debug(msg@) + " into the specified type."@,
        InstrumentError::Io { message, .. } => message@,
    }
}

impl InstrumentError {
    /// The message of this error.
    pub fn message(&self) -> (r: String)
        ensures
            r@ == instrument_error_message(*self),
    {
        match self {
            InstrumentError::BadInstrumentResponseString { msg } => {
                let mut m = String::from_str(
                    "Could not convert the message received from the instrument ",
                );
                m.append(msg.as_str());
                m.append(" into the specified type.");
                m
            },
            InstrumentError::BadInstrumentResponseVecU8 { msg } => {
                let mut m = String::from_str(
                    "Could not convert the message received from the instrument ",
                );
                push_bytes_debug(&mut m, msg.as_slice());
                m.append(" into the specified type.");
                m
            },
            InstrumentError::Io { message, .. } => message.clone(),
        }
    }
}

} // verus!
