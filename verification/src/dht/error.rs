//! Errors of the DHT's message handling.
use vstd::prelude::*;

use crate::bencode::error::{BencodeConvertError, ConvertFailure};
use crate::dht::message::error::{ErrorMessage, ErrorMessageView};

verus! {

/// Why a message from another node could not be handled.
#[derive(Debug, Clone)]
pub enum DhtError {
    /// A value of the message was missing or had the wrong type.
    Bencode(BencodeConvertError),
    /// The message was not a KRPC message we know.
    InvalidMessage { code: String },
    /// A response did not have the shape it should.
    InvalidResponse { details: String },
    /// A response came for a request we did not send.
    UnsolicitedResponse,
    /// A request was invalid; the error message to answer it with.
    InvalidRequest { msg: ErrorMessage },
}

/// Model of a `DhtError`.
pub enum DhtFailure {
    /// See `DhtError::Bencode`.
    Bencode(ConvertFailure),
    /// See `DhtError::InvalidMessage`.
    InvalidMessage(Seq<char>),
    /// See `DhtError::InvalidResponse`.
    InvalidResponse(Seq<char>),
    /// See `DhtError::UnsolicitedResponse`.
    UnsolicitedResponse,
    /// See `DhtError::InvalidRequest`.
    InvalidRequest(ErrorMessageView),
}

impl View for DhtError {
    type V = DhtFailure;

    open spec fn view(&self) -> DhtFailure {
        match self {
            DhtError::Bencode(e) => DhtFailure::Bencode(e@),
            DhtError::InvalidMessage { code } => DhtFailure::InvalidMessage(code@),
            DhtError::InvalidResponse { details } => DhtFailure::InvalidResponse(details@),
            DhtError::UnsolicitedResponse => DhtFailure::UnsolicitedResponse,
            DhtError::InvalidRequest { msg } => DhtFailure::InvalidRequest(msg@),
        }
    }
}

} // verus!
