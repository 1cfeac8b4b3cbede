//! The envelope that every response shares: status, messages and payload.

use vstd::prelude::*;
use crate::bytes::{bytes_eq, copy_bytes, view_texts};
use crate::error::{Error, Failure};
use crate::wire::{
    lookup,
    lookup_from,
    texts_of,
    texts_of_value,
    view_entries,
    view_items,
    view_option,
    Wire,
    WireValue,
};
use crate::words::{data_key, data_word, errors_key, errors_word, warnings_key, warnings_word};

verus! {

/// A response as the backend framed it. `data` is read on its own account: a
/// response that reports success may still carry no payload.
#[derive(Clone, Debug, PartialEq, Eq)]
pub struct GenericResponse {
    /// Whether the backend reported success.
    pub success: bool,
    /// The backend's error messages, in its order.
    pub errors: Vec<Vec<u8>>,
    /// The backend's warnings, when it sent any.
    pub warnings: Option<Vec<Vec<u8>>>,
    /// The payload, when one was sent.
    pub data: Option<WireValue>,
}

/// The mathematical value of a [`GenericResponse`].
pub struct Envelope {
    pub success: bool,
    pub errors: Seq<Seq<u8>>,
    pub warnings: Option<Seq<Seq<u8>>>,
    pub data: Option<Wire>,
}

impl View for GenericResponse {
    type V = Envelope;

    open spec fn view(&self) -> Envelope {
        Envelope {
            success: self.success,
            errors: view_texts(self.errors@),
            warnings: match self.warnings {
                Some(w) => Some(view_texts(w@)),
                None => None,
            },
            data: view_option(self.data),
        }
    }
}

/// The errors of an envelope: none where the field is absent, and otherwise the
/// field's texts. `None` where the field is not a sequence of texts.
pub open spec fn errors_of(entries: Seq<(Seq<u8>, Wire)>) -> Option<Seq<Seq<u8>>> {
    match lookup(entries, errors_key()) {
        None => Some(Seq::empty()),
        Some(value) => texts_of(value),
    }
}

/// The warnings of an envelope: absent where the field is absent or null, and
/// otherwise the field's texts. `None` where the field is anything else.
pub open spec fn warnings_of(entries: Seq<(Seq<u8>, Wire)>) -> Option<Option<Seq<Seq<u8>>>> {
    match lookup(entries, warnings_key()) {
        None => Some(None),
        Some(Wire::Null) => Some(None),
        Some(value) => match texts_of(value) {
            Some(texts) => Some(Some(texts)),
            None => None,
        },
    }
}

/// The envelope that a decoded value holds under the status `success`.
///
/// The value must be a mapping. Its `errors`, where present, must be a sequence of
/// texts, and its `warnings`, where present and not null, too. `data` may be absent
/// and may be any value, but a response that reports success may not spell it as null.
pub open spec fn envelope_of(success: bool, value: Wire) -> Result<Envelope, Failure> {
    match value {
        Wire::Mapping(entries) => {
            let errors = errors_of(entries);
            let warnings = warnings_of(entries);
            let data = lookup(entries, data_key());
            if errors is None || warnings is None || (success && data == Some(Wire::Null)) {
                Err(Failure::MalformedEnvelope)
            } else {
                Ok(Envelope { success, errors: errors->0, warnings: warnings->0, data })
            }
        },
        _ => Err(Failure::MalformedEnvelope),
    }
}

/// What a result is worth: the value of what it holds.
pub open spec fn outcome<T: View>(r: Result<T, Error>) -> Result<T::V, Failure> {
    match r {
        Ok(value) => Ok(value@),
        Err(e) => Err(e@),
    }
}

/// Takes the envelope out of a decoded value. The payload is moved, not copied.
pub fn parse_envelope(success: bool, value: WireValue) -> (r: Result<GenericResponse, Error>)
    ensures
        outcome(r) == envelope_of(success, value@),
{
    let ghost whole = value@;
    let mut entries = match value {
        WireValue::Mapping(entries) => entries,
        _ => { return Err(Error::MalformedEnvelope); },
    };
    let ghost initial = entries@;
    let ghost all = view_entries(initial);
    assert(whole == Wire::Mapping(all));
    let errors_name = errors_word();
    let warnings_name = warnings_word();
    let data_name = data_word();
    let mut errors_field: Option<WireValue> = None;
    let mut warnings_field: Option<WireValue> = None;
    let mut data_field: Option<WireValue> = None;
    while entries.len() > 0
        invariant
            entries@.len() <= initial.len(),
            entries@ == initial.subrange(0, entries@.len() as int),
            all == view_entries(initial),
            errors_name@ == errors_key(),
            warnings_name@ == warnings_key(),
            data_name@ == data_key(),
            view_option(errors_field) == lookup_from(all, errors_key(), entries@.len() as int),
            view_option(warnings_field) == lookup_from(all, warnings_key(), entries@.len() as int),
            view_option(data_field) == lookup_from(all, data_key(), entries@.len() as int),
        decreases entries@.len(),
    {
        let ghost n = entries@.len() - 1;
        let entry = entries.pop();
        if let Some((key, field)) = entry {
            assert(initial[n] == (key, field));
            assert(all[n] == (key@, field@));
            assert(entries@ =~= initial.subrange(0, n));
            if bytes_eq(key.as_slice(), errors_name.as_slice()) {
                errors_field = Some(field);
            } else if bytes_eq(key.as_slice(), warnings_name.as_slice()) {
                warnings_field = Some(field);
            } else if bytes_eq(key.as_slice(), data_name.as_slice()) {
                data_field = Some(field);
            }
        }
    }
    let errors: Vec<Vec<u8>> = match &errors_field {
        None => Vec::new(),
        Some(field) => match texts_of_value(field) {
            Some(texts) => texts,
            None => { return Err(Error::MalformedEnvelope); },
        },
    };
    assert(view_texts(errors@) =~= errors_of(all)->0);
    let warnings: Option<Vec<Vec<u8>>> = match &warnings_field {
        None => None,
        Some(WireValue::Null) => None,
        Some(field) => match texts_of_value(field) {
            Some(texts) => Some(texts),
            None => { return Err(Error::MalformedEnvelope); },
        },
    };
    if success {
        if let Some(WireValue::Null) = &data_field {
            return Err(Error::MalformedEnvelope);
        }
    }
    Ok(GenericResponse { success, errors, warnings, data: data_field })
}


/// A list of texts as a value: the sequence of the texts.
pub open spec fn texts_value(texts: Seq<Seq<u8>>) -> Wire {
    Wire::Sequence(Seq::new(texts.len(), |i: int| Wire::String(texts[i])))
}

/// An envelope as a value: a mapping with the errors, then the warnings if there are
/// any, then the payload if there is one. The status is not part of the value; it
/// travels beside the body.
pub open spec fn envelope_value(envelope: Envelope) -> Wire {
    let errors = seq![(errors_key(), texts_value(envelope.errors))];
    let warnings = match envelope.warnings {
        Some(texts) => seq![(warnings_key(), texts_value(texts))],
        None => Seq::empty(),
    };
    let data = match envelope.data {
        Some(value) => seq![(data_key(), value)],
        None => Seq::empty(),
    };
    Wire::Mapping(errors + warnings + data)
}

/// Makes the sequence of a list of texts.
pub fn texts_into_value(texts: &Vec<Vec<u8>>) -> (value: WireValue)
    ensures
        value@ == texts_value(view_texts(texts@)),
{
    let mut items: Vec<WireValue> = Vec::new();
    let mut i: usize = 0;
    while i < texts.len()
        invariant
            i <= texts@.len(),
            items@.len() == i,
            forall|j: int| 0 <= j < i ==> (#[trigger] items@[j])@ == Wire::String(texts@[j]@),
        decreases texts@.len() - i,
    {
        items.push(WireValue::String(copy_bytes(texts[i].as_slice())));
        i += 1;
    }
    assert(view_items(items@) =~= Seq::new(
        view_texts(texts@).len(),
        |i: int| Wire::String(view_texts(texts@)[i]),
    ));
    WireValue::Sequence(items)
}

/// Turns a response into the value that [`parse_envelope`] reads it from. The
/// payload is moved, not copied.
pub fn into_value(resp: GenericResponse) -> (value: WireValue)
    ensures
        value@ == envelope_value(resp@),
{
    let ghost envelope = resp@;
    let GenericResponse { success: _, errors, warnings, data } = resp;
    let mut entries: Vec<(Vec<u8>, WireValue)> = Vec::new();
    entries.push((errors_word(), texts_into_value(&errors)));
    if let Some(texts) = warnings {
        entries.push((warnings_word(), texts_into_value(&texts)));
    }
    if let Some(value) = data {
        entries.push((data_word(), value));
    }
    assert(view_entries(entries@) =~= crate::depth::entries_of(envelope_value(envelope)));
    WireValue::Mapping(entries)
}

} // verus!
