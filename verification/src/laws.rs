//! What holds of the extractors and of the last check, whatever the response.

use vstd::prelude::*;
use crate::assemble::assembled;
use crate::client::{policy_list_result, secret_read_result};
use crate::config::Config;
use crate::envelope::{envelope_of, envelope_value, Envelope};
use crate::error::Failure;
use crate::policy::policies_of;
use crate::roundtrip::lemma_envelope_value;
use crate::secret::{secret_of, secret_text, Secret};
use crate::wire::Wire;

verus! {

/// A response that reports failure gives the backend's errors from every extractor,
/// whatever its payload is and whatever the decoding strategy would have returned.
pub proof fn law_failure_takes_precedence(
    resp: Envelope,
    key: Seq<u8>,
    decoded: Option<Seq<u8>>,
)
    requires
        !resp.success,
    ensures
        policies_of(resp) == Err::<Seq<Seq<u8>>, Failure>(
            Failure::BackendError { messages: resp.errors },
        ),
        secret_text(resp, key) == Err::<Seq<u8>, Failure>(
            Failure::BackendError { messages: resp.errors },
        ),
        secret_of(resp, key, decoded) == Err::<Secret, Failure>(
            Failure::BackendError { messages: resp.errors },
        ),
{
}

/// A secret that carries another key than the one that was asked for is never handed
/// on: the last check gives `IdentityMismatch`.
pub proof fn law_identity_enforced(secret: Secret, requested_key: Seq<u8>)
    requires
        secret.key != requested_key,
    ensures
        assembled(secret, requested_key) == Err::<Secret, Failure>(Failure::IdentityMismatch),
{
}

/// A secret that comes out of the processing of a response carries the key that was
/// asked for, and the processing never ends in `IdentityMismatch`.
pub proof fn law_processed_secret_is_the_requested(
    key: Seq<u8>,
    success: bool,
    body: Seq<u8>,
    config: Config,
    decoded: Option<Seq<u8>>,
)
    ensures
        secret_read_result(key, success, body, config, decoded) matches Ok(secret) ==> secret.key
            == key,
        secret_read_result(key, success, body, config, decoded) != Err::<Secret, Failure>(
            Failure::IdentityMismatch,
        ),
{
}

/// No processing of a policy list gives a failure that belongs to secrets.
pub proof fn law_policy_failures(success: bool, body: Seq<u8>, config: Config)
    ensures
        policy_list_result(success, body, config) matches Err(e) ==> e is DecodeError || e
            is MalformedEnvelope || e is BackendError || e is MissingData || e
            is MalformedPolicyList,
{
}

/// Reading an envelope is idempotent: the envelope that was read from a value is
/// read again from itself.
pub proof fn law_envelope_idempotent(success: bool, value: Wire)
    requires
        envelope_of(success, value) is Ok,
    ensures
        envelope_of(success, envelope_value(envelope_of(success, value)->Ok_0)) == envelope_of(
            success,
            value,
        ),
{
    lemma_envelope_value(envelope_of(success, value)->Ok_0);
}

} // verus!
