//! Reading the list of policy names out of a response.

use vstd::prelude::*;
use crate::bytes::{copy_texts, view_texts};
use crate::envelope::{texts_into_value, texts_value, Envelope, GenericResponse};
use crate::error::{Error, Failure};
use crate::roundtrip::lemma_texts_value;
use crate::wire::{find, lookup, texts_of, texts_of_value, view_entries, Wire, WireValue};
use crate::words::{policies_key, policies_word};

verus! {

/// The policy names that a response lists.
///
/// A response that reports failure gives the backend's errors, whatever its payload
/// holds. Otherwise the payload must be there and must be a mapping whose `policies`
/// entry is a sequence of texts; these are the names, in the order and number in
/// which the backend sent them.
pub open spec fn policies_of(resp: Envelope) -> Result<Seq<Seq<u8>>, Failure> {
    if !resp.success {
        Err(Failure::BackendError { messages: resp.errors })
    } else {
        match resp.data {
            None => Err(Failure::MissingData),
            Some(Wire::Mapping(entries)) => match lookup(entries, policies_key()) {
                None => Err(Failure::MalformedPolicyList),
                Some(list) => match texts_of(list) {
                    None => Err(Failure::MalformedPolicyList),
                    Some(names) => Ok(names),
                },
            },
            Some(_) => Err(Failure::MalformedPolicyList),
        }
    }
}

/// Reads the policy names out of a response.
pub fn extract_policies(resp: &GenericResponse) -> (r: Result<Vec<Vec<u8>>, Error>)
    ensures
        match r {
            Ok(names) => policies_of(resp@) == Ok::<Seq<Seq<u8>>, Failure>(view_texts(names@)),
            Err(e) => policies_of(resp@) == Err::<Seq<Seq<u8>>, Failure>(e@),
        },
        !resp.success ==> r is Err && r->Err_0@ == (Failure::BackendError {
            messages: view_texts(resp.errors@),
        }),
{
    if !resp.success {
        return Err(Error::BackendError { messages: copy_texts(&resp.errors) });
    }
    match &resp.data {
        None => Err(Error::MissingData),
        Some(WireValue::Mapping(entries)) => {
            let name = policies_word();
            match find(entries, name.as_slice()) {
                None => Err(Error::MalformedPolicyList),
                Some(list) => match texts_of_value(list) {
                    None => Err(Error::MalformedPolicyList),
                    Some(names) => Ok(names),
                },
            }
        },
        Some(_) => Err(Error::MalformedPolicyList),
    }
}


/// The payload that lists the policy names `names`.
pub open spec fn policy_payload(names: Seq<Seq<u8>>) -> Wire {
    Wire::Mapping(seq![(policies_key(), texts_value(names))])
}

/// Makes the payload that lists the given policy names.
pub fn policy_list_payload(names: &Vec<Vec<u8>>) -> (payload: WireValue)
    ensures
        payload@ == policy_payload(view_texts(names@)),
{
    let mut entries: Vec<(Vec<u8>, WireValue)> = Vec::new();
    entries.push((policies_word(), texts_into_value(names)));
    assert(view_entries(entries@) =~= seq![
        (policies_key(), texts_value(view_texts(names@))),
    ]);
    WireValue::Mapping(entries)
}

/// A response that reports success and carries the payload for a list of names
/// gives exactly those names.
pub proof fn law_policy_payload_is_read_back(resp: Envelope, names: Seq<Seq<u8>>)
    requires
        resp.success,
        resp.data == Some(policy_payload(names)),
    ensures
        policies_of(resp) == Ok::<Seq<Seq<u8>>, Failure>(names),
{
    lemma_texts_value(names);
}

} // verus!
