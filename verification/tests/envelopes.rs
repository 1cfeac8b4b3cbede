use vault_response::client::{process_generic_response, read_envelope};
use vault_response::config::Config;
use vault_response::decode::decode;
use vault_response::envelope::{parse_envelope, GenericResponse};
use vault_response::error::Error;
use vault_response::wire::{Number, WireValue};

fn limits() -> Config {
    Config { max_decode_depth: 16, max_decode_size: 4096 }
}

fn texts(words: &[&str]) -> Vec<Vec<u8>> {
    words.iter().map(|w| w.as_bytes().to_vec()).collect()
}

fn envelope(success: bool, body: &[u8]) -> Result<GenericResponse, Error> {
    parse_envelope(success, decode(body, &limits()).unwrap())
}

#[test]
fn envelope_must_be_a_mapping() {
    for body in [&b"[]"[..], b"null", b"\"errors\"", b"1", b"true", b"[{\"errors\":[]}]"] {
        assert_eq!(envelope(true, body), Err(Error::MalformedEnvelope));
        assert_eq!(envelope(false, body), Err(Error::MalformedEnvelope));
    }
}

#[test]
fn empty_mapping_is_an_empty_envelope() {
    assert_eq!(
        envelope(true, b"{}"),
        Ok(GenericResponse { success: true, errors: vec![], warnings: None, data: None })
    );
    assert_eq!(
        envelope(false, b"{}"),
        Ok(GenericResponse { success: false, errors: vec![], warnings: None, data: None })
    );
}

#[test]
fn errors_must_be_a_sequence_of_texts() {
    for body in [
        &br#"{"errors":null}"#[..],
        br#"{"errors":"denied"}"#,
        br#"{"errors":{"a":"b"}}"#,
        br#"{"errors":["a",1]}"#,
        br#"{"errors":[["a"]]}"#,
        br#"{"errors":[null]}"#,
        br#"{"errors":7}"#,
    ] {
        assert_eq!(envelope(false, body), Err(Error::MalformedEnvelope));
        assert_eq!(envelope(true, body), Err(Error::MalformedEnvelope));
    }
}

#[test]
fn warnings_are_optional_and_may_be_null() {
    assert_eq!(envelope(true, br#"{"warnings":null}"#).unwrap().warnings, None);
    assert_eq!(envelope(true, br#"{}"#).unwrap().warnings, None);
    assert_eq!(envelope(true, br#"{"warnings":[]}"#).unwrap().warnings, Some(vec![]));
    assert_eq!(
        envelope(true, br#"{"warnings":["w1","w2"]}"#).unwrap().warnings,
        Some(texts(&["w1", "w2"]))
    );
}

#[test]
fn warnings_of_another_type_are_malformed() {
    for body in [&br#"{"warnings":"w"}"#[..], br#"{"warnings":[1]}"#, br#"{"warnings":{}}"#] {
        assert_eq!(envelope(true, body), Err(Error::MalformedEnvelope));
    }
}

#[test]
fn absent_and_null_payloads_are_told_apart() {
    assert_eq!(envelope(false, br#"{"errors":["e"]}"#).unwrap().data, None);
    assert_eq!(
        envelope(false, br#"{"errors":["e"],"data":null}"#).unwrap().data,
        Some(WireValue::Null)
    );
    assert_eq!(envelope(true, br#"{"data":null}"#), Err(Error::MalformedEnvelope));
    assert_eq!(envelope(true, br#"{}"#).unwrap().data, None);
}

#[test]
fn payload_of_any_type_is_kept() {
    assert_eq!(
        envelope(true, br#"{"data":17}"#).unwrap().data,
        Some(WireValue::Number(Number::Integer(17)))
    );
    assert_eq!(
        envelope(true, br#"{"data":[1,"a"]}"#).unwrap().data,
        Some(WireValue::Sequence(vec![
            WireValue::Number(Number::Integer(1)),
            WireValue::String(b"a".to_vec()),
        ]))
    );
}

#[test]
fn unknown_fields_are_ignored() {
    let resp = envelope(true, br#"{"request_id":"r","errors":["a"],"auth":null,"data":"d"}"#);
    assert_eq!(
        resp,
        Ok(GenericResponse {
            success: true,
            errors: texts(&["a"]),
            warnings: None,
            data: Some(WireValue::String(b"d".to_vec())),
        })
    );
}

#[test]
fn first_entry_wins_in_a_hand_built_mapping() {
    let value = WireValue::Mapping(vec![
        (b"data".to_vec(), WireValue::Bool(true)),
        (b"data".to_vec(), WireValue::Bool(false)),
        (b"errors".to_vec(), WireValue::Sequence(vec![WireValue::String(b"x".to_vec())])),
        (b"errors".to_vec(), WireValue::Null),
    ]);
    assert_eq!(
        parse_envelope(true, value),
        Ok(GenericResponse {
            success: true,
            errors: texts(&["x"]),
            warnings: None,
            data: Some(WireValue::Bool(true)),
        })
    );
}

#[test]
fn generic_processing_fails_on_backend_failure() {
    let body = br#"{"errors":["a","b"],"data":"kept"}"#;
    assert_eq!(
        process_generic_response(false, body, &limits()),
        Err(Error::BackendError { messages: texts(&["a", "b"]) })
    );
    assert_eq!(
        process_generic_response(false, b"{}", &limits()),
        Err(Error::BackendError { messages: vec![] })
    );
    let resp = read_envelope(false, body, &limits()).unwrap();
    assert!(!resp.success);
    assert_eq!(resp.data, Some(WireValue::String(b"kept".to_vec())));
}

#[test]
fn undecodable_body_is_a_decode_error_whatever_the_status() {
    assert_eq!(process_generic_response(true, b"<html>", &limits()), Err(Error::DecodeError));
    assert_eq!(process_generic_response(false, b"<html>", &limits()), Err(Error::DecodeError));
    assert_eq!(process_generic_response(false, b"", &limits()), Err(Error::DecodeError));
}

#[test]
fn wrong_shape_is_a_malformed_envelope() {
    assert_eq!(process_generic_response(true, b"[]", &limits()), Err(Error::MalformedEnvelope));
    assert_eq!(
        process_generic_response(false, br#"{"errors":"x"}"#, &limits()),
        Err(Error::MalformedEnvelope)
    );
}
