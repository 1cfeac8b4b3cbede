//! From a response's status and body to the value the caller asked for.

use vstd::prelude::*;
use crate::assemble::{assemble_secret, assembled};
use crate::bytes::{copy_texts, view_texts};
use crate::config::Config;
use crate::decode::{decode, decode_text};
use crate::envelope::{envelope_of, outcome, parse_envelope, Envelope, GenericResponse};
use crate::error::{Error, Failure};
use crate::policy::{extract_policies, policies_of};
use crate::secret::{decoded_view, extract_secret, secret_of, secret_text, ExtractedSecret, Secret};

verus! {

/// The envelope that a body holds under the status `success`.
pub open spec fn envelope_in(success: bool, body: Seq<u8>, config: Config) -> Result<
    Envelope,
    Failure,
> {
    match decode_text(body, config) {
        None => Err(Failure::DecodeError),
        Some(value) => envelope_of(success, value),
    }
}

/// Decodes a body and takes the envelope out of it.
pub fn read_envelope(success: bool, body: &[u8], config: &Config) -> (r: Result<
    GenericResponse,
    Error,
>)
    ensures
        outcome(r) == envelope_in(success, body@, *config),
{
    match decode(body, config) {
        Err(e) => Err(e),
        Ok(value) => parse_envelope(success, value),
    }
}

/// What a caller gets for a response of which it wants no more than the envelope:
/// the envelope of a response that reports success, the backend's errors otherwise.
pub open spec fn generic_result(success: bool, body: Seq<u8>, config: Config) -> Result<
    Envelope,
    Failure,
> {
    match envelope_in(success, body, config) {
        Err(e) => Err(e),
        Ok(envelope) => {
            if envelope.success {
                Ok(envelope)
            } else {
                Err(Failure::BackendError { messages: envelope.errors })
            }
        },
    }
}

/// Processes a response of which the caller wants no more than the envelope.
pub fn process_generic_response(success: bool, body: &[u8], config: &Config) -> (r: Result<
    GenericResponse,
    Error,
>)
    ensures
        outcome(r) == generic_result(success, body@, *config),
{
    let resp = match read_envelope(success, body, config) {
        Err(e) => { return Err(e); },
        Ok(resp) => resp,
    };
    if resp.success {
        Ok(resp)
    } else {
        Err(Error::BackendError { messages: copy_texts(&resp.errors) })
    }
}

/// The policy names that a response lists.
pub open spec fn policy_list_result(success: bool, body: Seq<u8>, config: Config) -> Result<
    Seq<Seq<u8>>,
    Failure,
> {
    match envelope_in(success, body, config) {
        Err(e) => Err(e),
        Ok(envelope) => policies_of(envelope),
    }
}

/// Processes a response to a request for the list of policies.
pub fn process_policy_list_response(success: bool, body: &[u8], config: &Config) -> (r: Result<
    Vec<Vec<u8>>,
    Error,
>)
    ensures
        match r {
            Ok(names) => policy_list_result(success, body@, *config) == Ok::<
                Seq<Seq<u8>>,
                Failure,
            >(view_texts(names@)),
            Err(e) => policy_list_result(success, body@, *config) == Err::<Seq<Seq<u8>>, Failure>(
                e@,
            ),
        },
{
    let resp = match read_envelope(success, body, config) {
        Err(e) => { return Err(e); },
        Ok(resp) => resp,
    };
    extract_policies(&resp)
}

/// The secret that a response carries under `key`, where `decoded` is what the
/// decoding strategy made of the field's text.
pub open spec fn secret_read_result(
    key: Seq<u8>,
    success: bool,
    body: Seq<u8>,
    config: Config,
    decoded: Option<Seq<u8>>,
) -> Result<Secret, Failure> {
    match envelope_in(success, body, config) {
        Err(e) => Err(e),
        Ok(envelope) => match secret_of(envelope, key, decoded) {
            Err(e) => Err(e),
            Ok(secret) => assembled(secret, key),
        },
    }
}

/// The text that a response holds for the field `key`: what the decoding strategy is
/// given.
pub open spec fn secret_read_text(key: Seq<u8>, success: bool, body: Seq<u8>, config: Config) -> Result<
    Seq<u8>,
    Failure,
> {
    match envelope_in(success, body, config) {
        Err(e) => Err(e),
        Ok(envelope) => secret_text(envelope, key),
    }
}

/// Processes a response to a request for the field `requested_key` of a secret,
/// decoding the field's text with `decode`.
///
/// Where the response gives no such text, the failure is that of
/// [`secret_read_text`] and does not depend on `decode`. Where it gives one, the
/// result is that of [`secret_read_result`] for what `decode` returned on that text.
/// The secret that is returned carries `requested_key`.
pub fn process_secret_read_response<F: Fn(Vec<u8>) -> Result<Vec<u8>, Error>>(
    requested_key: &[u8],
    success: bool,
    body: &[u8],
    config: &Config,
    decode: F,
) -> (r: Result<ExtractedSecret, Error>)
    requires
        forall|text: Vec<u8>| call_requires(decode, (text,)),
    ensures
        secret_read_text(requested_key@, success, body@, *config) matches Err(e) ==> outcome(r)
            == Err::<Secret, Failure>(e),
        secret_read_text(requested_key@, success, body@, *config) matches Ok(found) ==> exists|
            text: Vec<u8>,
            decoded: Result<Vec<u8>, Error>,
        |
            text@ == found && call_ensures(decode, (text,), decoded) && outcome(r)
                == secret_read_result(
                requested_key@,
                success,
                body@,
                *config,
                decoded_view(decoded),
            ),
        r matches Ok(secret) ==> secret.key@ == requested_key@,
{
    let resp = match read_envelope(success, body, config) {
        Err(e) => { return Err(e); },
        Ok(resp) => resp,
    };
    match extract_secret(&resp, requested_key, decode) {
        Err(e) => Err(e),
        Ok(secret) => assemble_secret(secret, requested_key),
    }
}

} // verus!
