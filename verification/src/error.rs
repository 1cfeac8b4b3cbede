//! The ways in which a response can fail to become a value.

use vstd::prelude::*;
use crate::bytes::view_texts;

verus! {

/// Why a response was not turned into a value. Every failure is returned, never raised.
#[derive(Clone, Debug, PartialEq, Eq)]
pub enum Error {
    /// The body is not well-formed text, is nested too deeply, or is too long.
    DecodeError,
    /// The decoded value does not have the shape of an envelope.
    MalformedEnvelope,
    /// The backend reported failure; `messages` are its own words, unchanged.
    BackendError { messages: Vec<Vec<u8>> },
    /// The backend reported success and sent no payload.
    MissingData,
    /// The payload is not a list of policy names.
    MalformedPolicyList,
    /// The payload is not a secret with its fields and metadata.
    MalformedSecret,
    /// The metadata holds a version or a lease that is not a non-negative integer.
    MalformedMetadata,
    /// The response is well-formed and the secret has no field named `key`.
    KeyNotFound { key: Vec<u8> },
    /// The decoding strategy rejected the field's text.
    SecretDecodeError,
    /// The assembled secret is not the one that was asked for.
    IdentityMismatch,
}

/// The mathematical value of an [`Error`].
pub enum Failure {
    DecodeError,
    MalformedEnvelope,
    BackendError { messages: Seq<Seq<u8>> },
    MissingData,
    MalformedPolicyList,
    MalformedSecret,
    MalformedMetadata,
    KeyNotFound { key: Seq<u8> },
    SecretDecodeError,
    IdentityMismatch,
}

impl View for Error {
    type V = Failure;

    open spec fn view(&self) -> Failure {
        match self {
            Error::DecodeError => Failure::DecodeError,
            Error::MalformedEnvelope => Failure::MalformedEnvelope,
            Error::BackendError { messages } => Failure::BackendError {
                messages: view_texts(messages@),
            },
            Error::MissingData => Failure::MissingData,
            Error::MalformedPolicyList => Failure::MalformedPolicyList,
            Error::MalformedSecret => Failure::MalformedSecret,
            Error::MalformedMetadata => Failure::MalformedMetadata,
            Error::KeyNotFound { key } => Failure::KeyNotFound { key: key@ },
            Error::SecretDecodeError => Failure::SecretDecodeError,
            Error::IdentityMismatch => Failure::IdentityMismatch,
        }
    }
}

} // verus!
