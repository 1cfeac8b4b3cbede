//! Reading one field of a secret, with its version and lease, out of a response.

use vstd::prelude::*;
use crate::bytes::{copy_bytes, copy_texts, view_texts};
use crate::envelope::{outcome, Envelope, GenericResponse};
use crate::error::{Error, Failure};
use crate::wire::{find, lookup, lookup_from, view_entries, Number, NumberView, Wire, WireValue};
use crate::words::{
    data_key,
    data_word,
    lease_duration_key,
    lease_duration_word,
    metadata_key,
    metadata_word,
    version_key,
    version_word,
};

verus! {

/// One field of a secret, decoded, with what the backend said of the secret.
#[derive(Clone, Debug, PartialEq, Eq)]
pub struct ExtractedSecret {
    /// The name of the field that was asked for.
    pub key: Vec<u8>,
    /// The field's bytes, as the decoding strategy gave them.
    pub value: Vec<u8>,
    /// The secret's version, when the backend named one.
    pub version: Option<u64>,
    /// The secret's lease in seconds, when the backend named one.
    pub lease_duration: Option<u64>,
}

/// The mathematical value of an [`ExtractedSecret`].
pub struct Secret {
    pub key: Seq<u8>,
    pub value: Seq<u8>,
    pub version: Option<u64>,
    pub lease_duration: Option<u64>,
}

impl View for ExtractedSecret {
    type V = Secret;

    open spec fn view(&self) -> Secret {
        Secret {
            key: self.key@,
            value: self.value@,
            version: self.version,
            lease_duration: self.lease_duration,
        }
    }
}

/// The fields and the metadata of the secret that a response carries.
///
/// A response that reports failure gives the backend's errors, whatever its payload
/// holds. Otherwise the payload must be there and must be a mapping whose `data` and
/// `metadata` entries are mappings.
pub open spec fn secret_parts(resp: Envelope) -> Result<
    (Seq<(Seq<u8>, Wire)>, Seq<(Seq<u8>, Wire)>),
    Failure,
> {
    if !resp.success {
        Err(Failure::BackendError { messages: resp.errors })
    } else {
        match resp.data {
            None => Err(Failure::MissingData),
            Some(Wire::Mapping(entries)) => match (
                lookup(entries, data_key()),
                lookup(entries, metadata_key()),
            ) {
                (Some(Wire::Mapping(fields)), Some(Wire::Mapping(metadata))) => Ok(
                    (fields, metadata),
                ),
                _ => Err(Failure::MalformedSecret),
            },
            Some(_) => Err(Failure::MalformedSecret),
        }
    }
}

/// The text of the field `key` of the secret that a response carries: what is handed
/// to the decoding strategy. A secret without that field gives `KeyNotFound`; a field
/// that is not a text gives `MalformedSecret`.
pub open spec fn secret_text(resp: Envelope, key: Seq<u8>) -> Result<Seq<u8>, Failure> {
    match secret_parts(resp) {
        Err(e) => Err(e),
        Ok((fields, _)) => match lookup(fields, key) {
            None => Err(Failure::KeyNotFound { key }),
            Some(Wire::String(text)) => Ok(text),
            Some(_) => Err(Failure::MalformedSecret),
        },
    }
}

/// The count that the metadata gives under `name`: none where the entry is absent,
/// and `MalformedMetadata` where it is anything but an integer in `0 ..= u64::MAX`.
pub open spec fn count_of(metadata: Seq<(Seq<u8>, Wire)>, name: Seq<u8>) -> Result<
    Option<u64>,
    Failure,
> {
    match lookup(metadata, name) {
        None => Ok(None),
        Some(Wire::Number(NumberView::Integer(n))) => {
            if 0 <= n <= u64::MAX {
                Ok(Some(n as u64))
            } else {
                Err(Failure::MalformedMetadata)
            }
        },
        Some(_) => Err(Failure::MalformedMetadata),
    }
}

/// The secret that a response carries under `key`, where `decoded` is what the
/// decoding strategy made of the field's text (`None`: it failed).
///
/// Failures come in this order: those of [`secret_text`], then `SecretDecodeError`,
/// then `MalformedMetadata`.
pub open spec fn secret_of(resp: Envelope, key: Seq<u8>, decoded: Option<Seq<u8>>) -> Result<
    Secret,
    Failure,
> {
    match secret_text(resp, key) {
        Err(e) => Err(e),
        Ok(_) => match decoded {
            None => Err(Failure::SecretDecodeError),
            Some(value) => {
                let metadata = secret_parts(resp)->Ok_0.1;
                match (count_of(metadata, version_key()), count_of(metadata, lease_duration_key())) {
                    (Ok(version), Ok(lease_duration)) => Ok(
                        Secret { key, value, version, lease_duration },
                    ),
                    _ => Err(Failure::MalformedMetadata),
                }
            },
        },
    }
}

/// What a decoding strategy returned, as a value: its bytes, or `None` for a failure.
pub open spec fn decoded_view(decoded: Result<Vec<u8>, Error>) -> Option<Seq<u8>> {
    match decoded {
        Ok(bytes) => Some(bytes@),
        Err(_) => None,
    }
}

/// The two mappings of a secret: its fields and its metadata.
fn parts<'a>(resp: &'a GenericResponse) -> (r: Result<
    (&'a Vec<(Vec<u8>, WireValue)>, &'a Vec<(Vec<u8>, WireValue)>),
    Error,
>)
    ensures
        match r {
            Ok((fields, metadata)) => secret_parts(resp@) == Ok::<
                (Seq<(Seq<u8>, Wire)>, Seq<(Seq<u8>, Wire)>),
                Failure,
            >((view_entries(fields@), view_entries(metadata@))),
            Err(e) => secret_parts(resp@) == Err::<
                (Seq<(Seq<u8>, Wire)>, Seq<(Seq<u8>, Wire)>),
                Failure,
            >(e@),
        },
{
    if !resp.success {
        return Err(Error::BackendError { messages: copy_texts(&resp.errors) });
    }
    match &resp.data {
        None => Err(Error::MissingData),
        Some(WireValue::Mapping(entries)) => {
            let data_name = data_word();
            let metadata_name = metadata_word();
            match (find(entries, data_name.as_slice()), find(entries, metadata_name.as_slice())) {
                (Some(WireValue::Mapping(fields)), Some(WireValue::Mapping(metadata))) => Ok(
                    (fields, metadata),
                ),
                _ => Err(Error::MalformedSecret),
            }
        },
        Some(_) => Err(Error::MalformedSecret),
    }
}

/// Reads the count that the metadata gives under `name`.
fn read_count(metadata: &Vec<(Vec<u8>, WireValue)>, name: &[u8]) -> (r: Result<Option<u64>, Error>)
    ensures
        match r {
            Ok(count) => count_of(view_entries(metadata@), name@) == Ok::<
                Option<u64>,
                Failure,
            >(count),
            Err(e) => e@ == Failure::MalformedMetadata && count_of(
                view_entries(metadata@),
                name@,
            ) is Err,
        },
{
    match find(metadata, name) {
        None => Ok(None),
        Some(WireValue::Number(Number::Integer(n))) => {
            if 0 <= *n && *n <= 18446744073709551615 {
                Ok(Some(*n as u64))
            } else {
                Err(Error::MalformedMetadata)
            }
        },
        Some(_) => Err(Error::MalformedMetadata),
    }
}

/// Finds the text of the field `requested_key`: what a decoding strategy is to be
/// given.
pub fn secret_field(resp: &GenericResponse, requested_key: &[u8]) -> (r: Result<Vec<u8>, Error>)
    ensures
        match r {
            Ok(text) => secret_text(resp@, requested_key@) == Ok::<Seq<u8>, Failure>(text@),
            Err(e) => secret_text(resp@, requested_key@) == Err::<Seq<u8>, Failure>(e@),
        },
{
    let (fields, _) = match parts(resp) {
        Err(e) => { return Err(e); },
        Ok(found) => found,
    };
    match find(fields, requested_key) {
        None => Err(Error::KeyNotFound { key: copy_bytes(requested_key) }),
        Some(WireValue::String(text)) => Ok(copy_bytes(text.as_slice())),
        Some(_) => Err(Error::MalformedSecret),
    }
}

/// Builds the secret from a response and from what the decoding strategy returned
/// for the text of the field `requested_key`. Nothing is built unless every part is
/// in order.
pub fn finish_secret(
    resp: &GenericResponse,
    requested_key: &[u8],
    decoded: Result<Vec<u8>, Error>,
) -> (r: Result<ExtractedSecret, Error>)
    ensures
        outcome(r) == secret_of(resp@, requested_key@, decoded_view(decoded)),
{
    let (fields, metadata) = match parts(resp) {
        Err(e) => { return Err(e); },
        Ok(found) => found,
    };
    match find(fields, requested_key) {
        None => { return Err(Error::KeyNotFound { key: copy_bytes(requested_key) }); },
        Some(WireValue::String(_)) => {},
        Some(_) => { return Err(Error::MalformedSecret); },
    }
    let value = match decoded {
        Err(_) => { return Err(Error::SecretDecodeError); },
        Ok(value) => value,
    };
    let version_name = version_word();
    let lease_name = lease_duration_word();
    let version = match read_count(metadata, version_name.as_slice()) {
        Err(e) => { return Err(e); },
        Ok(version) => version,
    };
    let lease_duration = match read_count(metadata, lease_name.as_slice()) {
        Err(e) => { return Err(e); },
        Ok(lease_duration) => lease_duration,
    };
    Ok(ExtractedSecret { key: copy_bytes(requested_key), value, version, lease_duration })
}

/// The decoding strategy for a backend that sends a secret as plain text: the bytes
/// of the text are the secret.
pub fn plain_text(text: Vec<u8>) -> (r: Result<Vec<u8>, Error>)
    ensures
        r == Ok::<Vec<u8>, Error>(text),
{
    Ok(text)
}

/// Reads the field `requested_key` of the secret that a response carries and decodes
/// its text with `decode`.
///
/// Where the response gives no such text, the failure is that of [`secret_text`] and
/// does not depend on `decode`. Where it gives one, the result is that of
/// [`secret_of`] for what `decode` returned on that text.
pub fn extract_secret<F: Fn(Vec<u8>) -> Result<Vec<u8>, Error>>(
    resp: &GenericResponse,
    requested_key: &[u8],
    decode: F,
) -> (r: Result<ExtractedSecret, Error>)
    requires
        forall|text: Vec<u8>| call_requires(decode, (text,)),
    ensures
        secret_text(resp@, requested_key@) matches Err(e) ==> outcome(r) == Err::<Secret, Failure>(
            e,
        ),
        secret_text(resp@, requested_key@) matches Ok(found) ==> exists|
            text: Vec<u8>,
            decoded: Result<Vec<u8>, Error>,
        |
            text@ == found && call_ensures(decode, (text,), decoded) && outcome(r) == secret_of(
                resp@,
                requested_key@,
                decoded_view(decoded),
            ),
        !resp.success ==> outcome(r) == Err::<Secret, Failure>(
            Failure::BackendError { messages: view_texts(resp.errors@) },
        ),
{
    let text = match secret_field(resp, requested_key) {
        Err(e) => { return Err(e); },
        Ok(text) => text,
    };
    let ghost handed = text;
    let decoded = decode(text);
    let ghost returned = decoded;
    let r = finish_secret(resp, requested_key, decoded);
    assert(handed@ == secret_text(resp@, requested_key@)->Ok_0 && call_ensures(
        decode,
        (handed,),
        returned,
    ) && outcome(r) == secret_of(resp@, requested_key@, decoded_view(returned)));
    r
}


/// The entry that names a count, if there is one.
pub open spec fn count_entry(name: Seq<u8>, count: Option<u64>) -> Seq<(Seq<u8>, Wire)> {
    match count {
        Some(n) => seq![(name, Wire::Number(NumberView::Integer(n as int)))],
        None => Seq::empty(),
    }
}

/// The payload of a secret with the one field `key`, whose text is `text`, and with
/// the given version and lease.
pub open spec fn secret_payload(
    key: Seq<u8>,
    text: Seq<u8>,
    version: Option<u64>,
    lease_duration: Option<u64>,
) -> Wire {
    Wire::Mapping(
        seq![
            (data_key(), Wire::Mapping(seq![(key, Wire::String(text))])),
            (
                metadata_key(),
                Wire::Mapping(
                    count_entry(version_key(), version) + count_entry(
                        lease_duration_key(),
                        lease_duration,
                    ),
                ),
            ),
        ],
    )
}

/// Makes the payload of a secret with one field.
pub fn secret_read_payload(
    key: &[u8],
    text: &[u8],
    version: Option<u64>,
    lease_duration: Option<u64>,
) -> (payload: WireValue)
    ensures
        payload@ == secret_payload(key@, text@, version, lease_duration),
{
    let mut fields: Vec<(Vec<u8>, WireValue)> = Vec::new();
    fields.push((copy_bytes(key), WireValue::String(copy_bytes(text))));
    assert(view_entries(fields@) =~= seq![(key@, Wire::String(text@))]);
    let mut metadata: Vec<(Vec<u8>, WireValue)> = Vec::new();
    if let Some(n) = version {
        metadata.push((version_word(), WireValue::Number(Number::Integer(n as i128))));
    }
    if let Some(n) = lease_duration {
        metadata.push((lease_duration_word(), WireValue::Number(Number::Integer(n as i128))));
    }
    assert(view_entries(metadata@) =~= count_entry(version_key(), version) + count_entry(
        lease_duration_key(),
        lease_duration,
    ));
    let mut entries: Vec<(Vec<u8>, WireValue)> = Vec::new();
    entries.push((data_word(), WireValue::Mapping(fields)));
    entries.push((metadata_word(), WireValue::Mapping(metadata)));
    assert(view_entries(entries@) =~= seq![
        (data_key(), Wire::Mapping(view_entries(fields@))),
        (metadata_key(), Wire::Mapping(view_entries(metadata@))),
    ]);
    WireValue::Mapping(entries)
}

/// A response that reports success and carries the payload of a secret gives the
/// field's text to the decoding strategy and, for what the strategy returns, the
/// secret with that value, version and lease.
pub proof fn law_secret_payload_is_read_back(
    resp: Envelope,
    key: Seq<u8>,
    text: Seq<u8>,
    version: Option<u64>,
    lease_duration: Option<u64>,
    value: Seq<u8>,
)
    requires
        resp.success,
        resp.data == Some(secret_payload(key, text, version, lease_duration)),
    ensures
        secret_text(resp, key) == Ok::<Seq<u8>, Failure>(text),
        secret_of(resp, key, Some(value)) == Ok::<Secret, Failure>(
            Secret { key, value, version, lease_duration },
        ),
        secret_of(resp, key, None) == Err::<Secret, Failure>(Failure::SecretDecodeError),
{
    let fields = seq![(key, Wire::String(text))];
    let metadata = count_entry(version_key(), version) + count_entry(
        lease_duration_key(),
        lease_duration,
    );
    let entries = seq![(data_key(), Wire::Mapping(fields)), (metadata_key(), Wire::Mapping(metadata))];
    assert(data_key().len() == 4 && metadata_key().len() == 8 && version_key().len() == 7
        && lease_duration_key().len() == 14);
    assert(lookup_from(entries, metadata_key(), 1) == Some(Wire::Mapping(metadata)));
    assert(lookup(entries, metadata_key()) == Some(Wire::Mapping(metadata)));
    assert(lookup(entries, data_key()) == Some(Wire::Mapping(fields)));
    assert(secret_parts(resp) == Ok::<(Seq<(Seq<u8>, Wire)>, Seq<(Seq<u8>, Wire)>), Failure>(
        (fields, metadata),
    ));
    assert(lookup(fields, key) == Some(Wire::String(text)));
    assert(lookup_from(metadata, version_key(), 2) is None);
    assert(lookup_from(metadata, lease_duration_key(), 2) is None);
    assert(lookup_from(metadata, version_key(), 1) is None);
    assert(lookup_from(metadata, lease_duration_key(), 1) == if version is Some
        && lease_duration is Some {
        Some(Wire::Number(NumberView::Integer(lease_duration->0 as int)))
    } else {
        None
    });
    assert(count_of(metadata, version_key()) == Ok::<Option<u64>, Failure>(version));
    assert(count_of(metadata, lease_duration_key()) == Ok::<Option<u64>, Failure>(lease_duration));
}

} // verus!
