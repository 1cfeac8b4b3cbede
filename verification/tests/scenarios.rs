use vault_response::client::{
    process_generic_response, process_policy_list_response, process_secret_read_response,
};
use vault_response::config::Config;
use vault_response::error::Error;
use vault_response::secret::{plain_text, ExtractedSecret};

fn limits() -> Config {
    Config { max_decode_depth: 16, max_decode_size: 4096 }
}

fn texts(words: &[&str]) -> Vec<Vec<u8>> {
    words.iter().map(|w| w.as_bytes().to_vec()).collect()
}

#[test]
fn policy_list_is_returned_in_order() {
    let body = br#"{"errors":[],"data":{"policies":["default","root"]}}"#;
    let names = process_policy_list_response(true, body, &limits());
    assert_eq!(names, Ok(texts(&["default", "root"])));
}

#[test]
fn backend_failure_reaches_every_processor() {
    let body = br#"{"errors":["permission denied"]}"#;
    let expected = Error::BackendError { messages: texts(&["permission denied"]) };
    assert_eq!(process_generic_response(false, body, &limits()), Err(expected.clone()));
    assert_eq!(process_policy_list_response(false, body, &limits()), Err(expected.clone()));
    assert_eq!(
        process_secret_read_response(b"password", false, body, &limits(), plain_text),
        Err(expected)
    );
}

#[test]
fn secret_is_read_with_version_and_lease() {
    let body =
        br#"{"data":{"data":{"password":"s3cr3t"},"metadata":{"version":2,"lease_duration":0}}}"#;
    let secret = process_secret_read_response(b"password", true, body, &limits(), plain_text);
    assert_eq!(
        secret,
        Ok(ExtractedSecret {
            key: b"password".to_vec(),
            value: b"s3cr3t".to_vec(),
            version: Some(2),
            lease_duration: Some(0),
        })
    );
}

#[test]
fn missing_field_is_key_not_found() {
    let body = br#"{"data":{"data":{},"metadata":{}}}"#;
    let secret = process_secret_read_response(b"password", true, body, &limits(), plain_text);
    assert_eq!(secret, Err(Error::KeyNotFound { key: b"password".to_vec() }));
}

#[test]
fn policies_as_mapping_is_malformed() {
    let body = br#"{"data":{"policies":{"default":true}}}"#;
    let names = process_policy_list_response(true, body, &limits());
    assert_eq!(names, Err(Error::MalformedPolicyList));
}

#[test]
fn empty_policy_list_is_valid() {
    let body = br#"{"data":{"policies":[]}}"#;
    assert_eq!(process_policy_list_response(true, body, &limits()), Ok(Vec::new()));
}

#[test]
fn duplicate_policy_names_are_kept() {
    let body = br#"{"data":{"policies":["a","b","a","a"]}}"#;
    assert_eq!(
        process_policy_list_response(true, body, &limits()),
        Ok(texts(&["a", "b", "a", "a"]))
    );
}

#[test]
fn policy_names_pass_through_unmodified() {
    let body = b"{\"data\":{\"policies\":[\"a\\u0001b\",\"\xff\xfe\",\"tab\\there\"]}}";
    assert_eq!(
        process_policy_list_response(true, body, &limits()),
        Ok(vec![b"a\x01b".to_vec(), b"\xff\xfe".to_vec(), b"tab\there".to_vec()])
    );
}

#[test]
fn success_without_payload_is_missing_data() {
    let body = br#"{"errors":[]}"#;
    assert_eq!(process_policy_list_response(true, body, &limits()), Err(Error::MissingData));
    assert_eq!(
        process_secret_read_response(b"k", true, body, &limits(), plain_text),
        Err(Error::MissingData)
    );
}

#[test]
fn failure_takes_precedence_over_a_malformed_payload() {
    let body = br#"{"errors":["sealed"],"data":17}"#;
    let expected = Error::BackendError { messages: texts(&["sealed"]) };
    assert_eq!(process_policy_list_response(false, body, &limits()), Err(expected.clone()));
    assert_eq!(
        process_secret_read_response(b"k", false, body, &limits(), plain_text),
        Err(expected)
    );
}

#[test]
fn generic_response_keeps_every_field() {
    let body = br#" { "errors" : [] , "warnings" : ["slow", "old"] , "data" : "payload" } "#;
    let resp = process_generic_response(true, body, &limits()).unwrap();
    assert!(resp.success);
    assert_eq!(resp.errors, Vec::<Vec<u8>>::new());
    assert_eq!(resp.warnings, Some(texts(&["slow", "old"])));
    assert_eq!(resp.data, Some(vault_response::wire::WireValue::String(b"payload".to_vec())));
}
