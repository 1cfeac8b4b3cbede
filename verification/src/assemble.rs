//! The last step before a value is handed to the caller.

use vstd::prelude::*;
use crate::bytes::bytes_eq;
use crate::envelope::outcome;
use crate::error::{Error, Failure};
use crate::secret::{ExtractedSecret, Secret};

verus! {

/// What the caller gets for a secret that was read for `requested_key`: the secret
/// itself where it carries that key, and `IdentityMismatch` where it carries another.
pub open spec fn assembled(secret: Secret, requested_key: Seq<u8>) -> Result<Secret, Failure> {
    if secret.key == requested_key {
        Ok(secret)
    } else {
        Err(Failure::IdentityMismatch)
    }
}

/// Hands a secret on if it is the one that was asked for. The secret is not read
/// again and no field of it is changed.
pub fn assemble_secret(secret: ExtractedSecret, requested_key: &[u8]) -> (r: Result<
    ExtractedSecret,
    Error,
>)
    ensures
        outcome(r) == assembled(secret@, requested_key@),
        secret.key@ == requested_key@ ==> r == Ok::<ExtractedSecret, Error>(secret),
        secret.key@ != requested_key@ ==> r == Err::<ExtractedSecret, Error>(
            Error::IdentityMismatch,
        ),
{
    if bytes_eq(secret.key.as_slice(), requested_key) {
        Ok(secret)
    } else {
        Err(Error::IdentityMismatch)
    }
}

} // verus!
