use vault_response::assemble::assemble_secret;
use vault_response::client::{process_secret_read_response, read_envelope};
use vault_response::config::Config;
use vault_response::error::Error;
use vault_response::secret::{
    extract_secret, finish_secret, plain_text, secret_field, ExtractedSecret,
};

fn limits() -> Config {
    Config { max_decode_depth: 16, max_decode_size: 4096 }
}

fn read(key: &[u8], body: &[u8]) -> Result<ExtractedSecret, Error> {
    process_secret_read_response(key, true, body, &limits(), plain_text)
}

fn reversed(text: Vec<u8>) -> Result<Vec<u8>, Error> {
    Ok(text.into_iter().rev().collect())
}

fn hex(text: Vec<u8>) -> Result<Vec<u8>, Error> {
    if text.len() % 2 != 0 {
        return Err(Error::DecodeError);
    }
    let mut out = Vec::new();
    for pair in text.chunks(2) {
        let hi = (pair[0] as char).to_digit(16).ok_or(Error::DecodeError)?;
        let lo = (pair[1] as char).to_digit(16).ok_or(Error::DecodeError)?;
        out.push((hi * 16 + lo) as u8);
    }
    Ok(out)
}

fn failing(_text: Vec<u8>) -> Result<Vec<u8>, Error> {
    Err(Error::DecodeError)
}

#[test]
fn payload_must_hold_two_mappings() {
    for body in [
        &br#"{"data":[]}"#[..],
        br#"{"data":"x"}"#,
        br#"{"data":{}}"#,
        br#"{"data":{"data":{}}}"#,
        br#"{"data":{"metadata":{}}}"#,
        br#"{"data":{"data":[],"metadata":{}}}"#,
        br#"{"data":{"data":{},"metadata":null}}"#,
        br#"{"data":{"data":null,"metadata":{}}}"#,
        br#"{"data":{"data":{"k":"v"},"metadata":7}}"#,
    ] {
        assert_eq!(read(b"k", body), Err(Error::MalformedSecret));
    }
}

#[test]
fn field_that_is_not_a_text_is_malformed() {
    for body in [
        &br#"{"data":{"data":{"k":1},"metadata":{}}}"#[..],
        br#"{"data":{"data":{"k":null},"metadata":{}}}"#,
        br#"{"data":{"data":{"k":["v"]},"metadata":{}}}"#,
        br#"{"data":{"data":{"k":{"v":"w"}},"metadata":{}}}"#,
    ] {
        assert_eq!(read(b"k", body), Err(Error::MalformedSecret));
    }
}

#[test]
fn key_not_found_names_the_key() {
    let body = br#"{"data":{"data":{"user":"u","pass":"p"},"metadata":{"version":1}}}"#;
    assert_eq!(read(b"token", body), Err(Error::KeyNotFound { key: b"token".to_vec() }));
    assert_eq!(read(b"", body), Err(Error::KeyNotFound { key: vec![] }));
    assert_eq!(read(b"User", body), Err(Error::KeyNotFound { key: b"User".to_vec() }));
}

#[test]
fn missing_metadata_fields_are_none() {
    let body = br#"{"data":{"data":{"k":"v"},"metadata":{}}}"#;
    assert_eq!(
        read(b"k", body),
        Ok(ExtractedSecret {
            key: b"k".to_vec(),
            value: b"v".to_vec(),
            version: None,
            lease_duration: None,
        })
    );
    let body = br#"{"data":{"data":{"k":"v"},"metadata":{"lease_duration":3600}}}"#;
    assert_eq!(
        read(b"k", body),
        Ok(ExtractedSecret {
            key: b"k".to_vec(),
            value: b"v".to_vec(),
            version: None,
            lease_duration: Some(3600),
        })
    );
}

#[test]
fn largest_counts_are_accepted() {
    let body = br#"{"data":{"data":{"k":"v"},"metadata":{"version":18446744073709551615,"lease_duration":18446744073709551615}}}"#;
    assert_eq!(
        read(b"k", body),
        Ok(ExtractedSecret {
            key: b"k".to_vec(),
            value: b"v".to_vec(),
            version: Some(u64::MAX),
            lease_duration: Some(u64::MAX),
        })
    );
}

#[test]
fn wrong_typed_metadata_is_malformed() {
    for meta in [
        r#"{"version":-1}"#,
        r#"{"version":1.0}"#,
        r#"{"version":1e2}"#,
        r#"{"version":"2"}"#,
        r#"{"version":null}"#,
        r#"{"version":[2]}"#,
        r#"{"version":true}"#,
        r#"{"lease_duration":-5}"#,
        r#"{"lease_duration":0.5}"#,
        r#"{"lease_duration":"60"}"#,
        r#"{"lease_duration":null}"#,
        r#"{"version":1,"lease_duration":{}}"#,
        r#"{"version":-9223372036854775808}"#,
    ] {
        let body = format!(r#"{{"data":{{"data":{{"k":"v"}},"metadata":{}}}}}"#, meta);
        assert_eq!(read(b"k", body.as_bytes()), Err(Error::MalformedMetadata));
    }
}

#[test]
fn count_beyond_the_integer_range_does_not_decode() {
    let body = br#"{"data":{"data":{"k":"v"},"metadata":{"version":18446744073709551616}}}"#;
    assert_eq!(read(b"k", body), Err(Error::DecodeError));
}

#[test]
fn strategy_decides_the_value() {
    let body = br#"{"data":{"data":{"k":"6869"},"metadata":{"version":3}}}"#;
    let secret = process_secret_read_response(b"k", true, body, &limits(), hex).unwrap();
    assert_eq!(secret.value, b"hi".to_vec());
    let secret = process_secret_read_response(b"k", true, body, &limits(), reversed).unwrap();
    assert_eq!(secret.value, b"9686".to_vec());
    let secret = process_secret_read_response(b"k", true, body, &limits(), plain_text).unwrap();
    assert_eq!(secret.value, b"6869".to_vec());
    assert_eq!(secret.key, b"k".to_vec());
    assert_eq!(secret.version, Some(3));
}

#[test]
fn strategy_failure_is_a_secret_decode_error() {
    let body = br#"{"data":{"data":{"k":"xyz"},"metadata":{}}}"#;
    assert_eq!(
        process_secret_read_response(b"k", true, body, &limits(), hex),
        Err(Error::SecretDecodeError)
    );
    assert_eq!(
        process_secret_read_response(b"k", true, body, &limits(), failing),
        Err(Error::SecretDecodeError)
    );
}

#[test]
fn failures_come_in_order() {
    let no_key = br#"{"data":{"data":{},"metadata":{"version":-1}}}"#;
    assert_eq!(
        process_secret_read_response(b"k", true, no_key, &limits(), failing),
        Err(Error::KeyNotFound { key: b"k".to_vec() })
    );
    let bad_meta = br#"{"data":{"data":{"k":"v"},"metadata":{"version":-1}}}"#;
    assert_eq!(
        process_secret_read_response(b"k", true, bad_meta, &limits(), failing),
        Err(Error::SecretDecodeError)
    );
    assert_eq!(
        process_secret_read_response(b"k", true, bad_meta, &limits(), plain_text),
        Err(Error::MalformedMetadata)
    );
    let failed = br#"{"errors":["no"],"data":{"data":{},"metadata":{"version":-1}}}"#;
    assert_eq!(
        process_secret_read_response(b"k", false, failed, &limits(), failing),
        Err(Error::BackendError { messages: vec![b"no".to_vec()] })
    );
}

#[test]
fn strategy_is_given_the_text_of_the_field() {
    let body = br#"{"data":{"data":{"a":"one","b":"two"},"metadata":{}}}"#;
    let resp = read_envelope(true, body, &limits()).unwrap();
    assert_eq!(secret_field(&resp, b"b"), Ok(b"two".to_vec()));
    assert_eq!(secret_field(&resp, b"a"), Ok(b"one".to_vec()));
    assert_eq!(secret_field(&resp, b"c"), Err(Error::KeyNotFound { key: b"c".to_vec() }));
    let seen = std::cell::RefCell::new(Vec::new());
    let r = extract_secret(&resp, b"b", |text: Vec<u8>| {
        seen.borrow_mut().push(text.clone());
        Ok(text)
    });
    assert_eq!(r.unwrap().value, b"two".to_vec());
    assert_eq!(seen.into_inner(), vec![b"two".to_vec()]);
}

#[test]
fn finishing_takes_what_the_strategy_returned() {
    let body = br#"{"data":{"data":{"k":"v"},"metadata":{"version":9,"lease_duration":1}}}"#;
    let resp = read_envelope(true, body, &limits()).unwrap();
    assert_eq!(
        finish_secret(&resp, b"k", Ok(vec![1, 2, 3])),
        Ok(ExtractedSecret {
            key: b"k".to_vec(),
            value: vec![1, 2, 3],
            version: Some(9),
            lease_duration: Some(1),
        })
    );
    assert_eq!(finish_secret(&resp, b"k", Err(Error::MissingData)), Err(Error::SecretDecodeError));
    assert_eq!(
        finish_secret(&resp, b"other", Ok(vec![])),
        Err(Error::KeyNotFound { key: b"other".to_vec() })
    );
}

#[test]
fn assembler_hands_on_the_requested_secret() {
    let secret = ExtractedSecret {
        key: b"password".to_vec(),
        value: b"s3cr3t".to_vec(),
        version: Some(2),
        lease_duration: None,
    };
    assert_eq!(assemble_secret(secret.clone(), b"password"), Ok(secret));
}

#[test]
fn assembler_refuses_a_substituted_secret() {
    let secret = ExtractedSecret {
        key: b"username".to_vec(),
        value: b"s3cr3t".to_vec(),
        version: Some(2),
        lease_duration: Some(0),
    };
    assert_eq!(assemble_secret(secret.clone(), b"password"), Err(Error::IdentityMismatch));
    assert_eq!(assemble_secret(secret.clone(), b"usernam"), Err(Error::IdentityMismatch));
    assert_eq!(assemble_secret(secret.clone(), b"username "), Err(Error::IdentityMismatch));
    assert_eq!(assemble_secret(secret, b""), Err(Error::IdentityMismatch));
}

#[test]
fn plain_text_is_the_identity() {
    assert_eq!(plain_text(vec![]), Ok(vec![]));
    assert_eq!(plain_text(vec![0, 255, 34, 92]), Ok(vec![0, 255, 34, 92]));
}
