use vault_response::bytes::{bytes_eq, copy_bytes, copy_texts};
use vault_response::client::{
    process_policy_list_response, process_secret_read_response, read_envelope,
};
use vault_response::policy::policy_list_payload;
use vault_response::secret::{plain_text, secret_read_payload, ExtractedSecret};
use vault_response::config::Config;
use vault_response::decode::decode;
use vault_response::encode::{encode, encode_response};
use vault_response::envelope::{into_value, parse_envelope, GenericResponse};
use vault_response::targets::{
    frame_key, frame_status, split_key, split_status, VaultGenericResponse,
    VaultPolicyListResponse, VaultSecretReadResponse,
};
use vault_response::wire::{Number, WireValue};

fn limits() -> Config {
    Config { max_decode_depth: 16, max_decode_size: 1 << 16 }
}

fn texts(words: &[&str]) -> Vec<Vec<u8>> {
    words.iter().map(|w| w.as_bytes().to_vec()).collect()
}

fn sample(success: bool) -> GenericResponse {
    GenericResponse {
        success,
        errors: texts(&["permission denied", "quote \" and \\ backslash"]),
        warnings: Some(texts(&["", "line\nbreak\ttab"])),
        data: Some(WireValue::String(b"pay\x00load \xff\x7f".to_vec())),
    }
}

#[test]
fn values_are_written_without_separators() {
    let value = WireValue::Mapping(vec![
        (b"a".to_vec(), WireValue::Sequence(vec![
            WireValue::Null,
            WireValue::Bool(true),
            WireValue::Bool(false),
            WireValue::Number(Number::Integer(-12)),
            WireValue::Number(Number::Integer(0)),
            WireValue::Number(Number::Decimal(b"1.5e3".to_vec())),
        ])),
        (b"b".to_vec(), WireValue::Mapping(vec![])),
        (b"c".to_vec(), WireValue::Sequence(vec![])),
    ]);
    assert_eq!(
        encode(&value),
        br#"{"a":[null,true,false,-12,0,1.5e3],"b":{},"c":[]}"#.to_vec()
    );
}

#[test]
fn texts_are_written_with_escapes() {
    let value = WireValue::String(b"a\"b\\c\n\x00\x1f d\xc3\xa9/".to_vec());
    assert_eq!(encode(&value), b"\"a\\\"b\\\\c\\u000a\\u0000\\u001f d\xc3\xa9/\"".to_vec());
}

#[test]
fn extreme_integers_are_written_in_full() {
    assert_eq!(
        encode(&WireValue::Number(Number::Integer(u64::MAX as i128))),
        b"18446744073709551615".to_vec()
    );
    assert_eq!(
        encode(&WireValue::Number(Number::Integer(i64::MIN as i128))),
        b"-9223372036854775808".to_vec()
    );
    assert_eq!(
        encode(&WireValue::Number(Number::Integer(i128::MIN))),
        b"-170141183460469231731687303715884105728".to_vec()
    );
    assert_eq!(
        encode(&WireValue::Number(Number::Integer(i128::MAX))),
        b"170141183460469231731687303715884105727".to_vec()
    );
}

#[test]
fn written_values_are_read_back() {
    let value = WireValue::Sequence(vec![
        WireValue::Mapping(vec![
            (b"k\"1".to_vec(), WireValue::String((0..=255u8).collect())),
            (b"".to_vec(), WireValue::Number(Number::Integer(u64::MAX as i128))),
            (b"k3".to_vec(), WireValue::Number(Number::Integer(i64::MIN as i128))),
        ]),
        WireValue::Number(Number::Decimal(b"-0.5E-7".to_vec())),
        WireValue::Sequence(vec![WireValue::Sequence(vec![]), WireValue::Null]),
        WireValue::Bool(false),
    ]);
    let body = encode(&value);
    assert_eq!(decode(&body, &limits()), Ok(value));
}

#[test]
fn response_is_written_as_a_mapping() {
    let resp = GenericResponse {
        success: true,
        errors: vec![],
        warnings: None,
        data: Some(WireValue::String(b"x".to_vec())),
    };
    assert_eq!(encode_response(resp), br#"{"errors":[],"data":"x"}"#.to_vec());
    let resp = GenericResponse {
        success: false,
        errors: texts(&["e"]),
        warnings: Some(texts(&["w"])),
        data: None,
    };
    assert_eq!(encode_response(resp), br#"{"errors":["e"],"warnings":["w"]}"#.to_vec());
}

#[test]
fn response_round_trips_through_the_pipeline() {
    for success in [true, false] {
        let body = encode_response(sample(success));
        assert_eq!(read_envelope(success, &body, &limits()), Ok(sample(success)));
    }
    let bare = GenericResponse {
        success: true,
        errors: vec![],
        warnings: None,
        data: Some(WireValue::String(vec![])),
    };
    let body = encode_response(GenericResponse {
        success: true,
        errors: vec![],
        warnings: None,
        data: Some(WireValue::String(vec![])),
    });
    assert_eq!(read_envelope(true, &body, &limits()), Ok(bare));
}

#[test]
fn response_round_trip_needs_two_levels() {
    let body = encode_response(sample(true));
    let exact = Config { max_decode_depth: 2, max_decode_size: body.len() };
    assert_eq!(read_envelope(true, &body, &exact), Ok(sample(true)));
    let shallow = Config { max_decode_depth: 1, max_decode_size: body.len() };
    assert!(read_envelope(true, &body, &shallow).is_err());
}

#[test]
fn envelope_value_is_read_back_as_the_envelope() {
    assert_eq!(parse_envelope(true, into_value(sample(true))), Ok(sample(true)));
    assert_eq!(parse_envelope(false, into_value(sample(false))), Ok(sample(false)));
    assert_eq!(
        into_value(GenericResponse { success: true, errors: vec![], warnings: None, data: None }),
        WireValue::Mapping(vec![(b"errors".to_vec(), WireValue::Sequence(vec![]))])
    );
}

#[test]
fn copies_are_equal_and_independent() {
    let value = WireValue::Mapping(vec![
        (b"a".to_vec(), WireValue::Sequence(vec![WireValue::Null, WireValue::Bool(true)])),
        (b"b".to_vec(), WireValue::Number(Number::Decimal(b"2.5".to_vec()))),
        (b"c".to_vec(), WireValue::Mapping(vec![(vec![], WireValue::String(b"x".to_vec()))])),
        (b"d".to_vec(), WireValue::Number(Number::Integer(-3))),
    ]);
    let mut copy = value.clone();
    assert_eq!(copy, value);
    if let WireValue::Mapping(entries) = &mut copy {
        entries.pop();
    }
    assert_ne!(copy, value);
    let resp = sample(true);
    assert_eq!(resp.clone(), resp);
}

#[test]
fn byte_helpers_compare_and_copy() {
    assert!(bytes_eq(b"", b""));
    assert!(bytes_eq(b"abc", b"abc"));
    assert!(!bytes_eq(b"abc", b"abd"));
    assert!(!bytes_eq(b"abc", b"ab"));
    assert!(!bytes_eq(b"", b"a"));
    assert_eq!(copy_bytes(b"xyz"), b"xyz".to_vec());
    assert_eq!(copy_texts(&texts(&["a", "", "bc"])), texts(&["a", "", "bc"]));
}

#[test]
fn descriptions_name_the_processor() {
    assert_eq!(
        VaultGenericResponse.description(),
        "Secure storage vault: process_generic_response()"
    );
    assert_eq!(
        VaultPolicyListResponse.description(),
        "Secure storage vault: process_policy_list_response()"
    );
    assert_eq!(
        VaultSecretReadResponse.description(),
        "Secure storage vault: process_secret_read_response()"
    );
}

#[test]
fn inputs_are_split_into_status_key_and_body() {
    assert_eq!(split_status(b""), (false, &b""[..]));
    assert_eq!(split_status(&[1]), (true, &b""[..]));
    assert_eq!(split_status(&[2, 7, 8]), (false, &[7u8, 8][..]));
    assert_eq!(split_status(&[255, 7]), (true, &[7u8][..]));
    assert_eq!(split_key(b""), (&b""[..], &b""[..]));
    assert_eq!(split_key(&[0, 1, 2]), (&b""[..], &[1u8, 2][..]));
    assert_eq!(split_key(&[2, 1, 2, 3]), (&[1u8, 2][..], &[3u8][..]));
    assert_eq!(split_key(&[200, 1, 2, 3]), (&[1u8, 2, 3][..], &b""[..]));
}

#[test]
fn framing_is_undone_by_splitting() {
    let data = frame_status(true, b"{\"a\":1}");
    assert_eq!(split_status(&data), (true, &b"{\"a\":1}"[..]));
    let data = frame_status(false, b"");
    assert_eq!(split_status(&data), (false, &b""[..]));
    let rest = frame_key(b"password", b"{}").unwrap();
    assert_eq!(rest, b"\x08password{}".to_vec());
    assert_eq!(split_key(&rest), (&b"password"[..], &b"{}"[..]));
    let rest = frame_key(b"", b"body").unwrap();
    assert_eq!(split_key(&rest), (&b""[..], &b"body"[..]));
    let long = vec![7u8; 255];
    let rest = frame_key(&long, b"").unwrap();
    assert_eq!(split_key(&rest), (&long[..], &b""[..]));
    assert_eq!(frame_key(&vec![7u8; 256], b"body"), None);
}

#[test]
fn targets_return_on_any_input() {
    let mut inputs: Vec<Vec<u8>> = vec![
        vec![],
        vec![0],
        vec![1],
        b"\x01{\"errors\":[],\"data\":{\"policies\":[\"default\"]}}".to_vec(),
        b"\x01\x08password{\"data\":{\"data\":{\"password\":\"x\"},\"metadata\":{}}}".to_vec(),
        b"\x00{\"errors\":[\"denied\"]}".to_vec(),
        vec![b'['; 100_000],
        vec![0xff; 1000],
    ];
    let mut state: u32 = 0x2545_f491;
    for len in 0..200usize {
        let mut input = Vec::with_capacity(len);
        for _ in 0..len {
            state ^= state << 13;
            state ^= state >> 17;
            state ^= state << 5;
            let alphabet = b"{}[]\",:\\ntfu0159e-. ae\x00\xff";
            input.push(alphabet[state as usize % alphabet.len()]);
        }
        inputs.push(input);
    }
    for input in &inputs {
        VaultGenericResponse.fuzz(input);
        VaultPolicyListResponse.fuzz(input);
        VaultSecretReadResponse.fuzz(input);
    }
}

#[test]
fn policy_payload_is_read_back() {
    let names = texts(&["default", "", "ro\"ot", "default"]);
    assert_eq!(
        policy_list_payload(&names),
        WireValue::Mapping(vec![(
            b"policies".to_vec(),
            WireValue::Sequence(names.iter().cloned().map(WireValue::String).collect()),
        )])
    );
    let body = encode_response(GenericResponse {
        success: true,
        errors: vec![],
        warnings: None,
        data: Some(policy_list_payload(&names)),
    });
    assert_eq!(process_policy_list_response(true, &body, &limits()), Ok(names));
}

#[test]
fn secret_payload_is_read_back() {
    for (version, lease) in [(None, None), (Some(0), None), (None, Some(7)), (Some(u64::MAX), Some(1))]
    {
        let payload = secret_read_payload(b"pass\x00word", b"s3cr3t", version, lease);
        let body = encode_response(GenericResponse {
            success: true,
            errors: vec![],
            warnings: Some(vec![]),
            data: Some(payload),
        });
        assert_eq!(
            process_secret_read_response(b"pass\x00word", true, &body, &limits(), plain_text),
            Ok(ExtractedSecret {
                key: b"pass\x00word".to_vec(),
                value: b"s3cr3t".to_vec(),
                version,
                lease_duration: lease,
            })
        );
    }
    assert_eq!(
        encode(&secret_read_payload(b"k", b"v", Some(3), Some(60))),
        br#"{"data":{"k":"v"},"metadata":{"version":3,"lease_duration":60}}"#.to_vec()
    );
}

#[test]
fn decoding_is_stable_under_rewriting() {
    let bodies: [&[u8]; 5] = [
        b" { \"a\" : [ 1 , 2.50 , -0 , \"x\\ny\" ] , \"b\" : { } } ",
        b"[\"\\u0041\\/\", 1E5, -12, null, true]",
        b"\"plain\"",
        b"[[[[]]], {\"k\": {\"k\": []}}]",
        b"18446744073709551615",
    ];
    for body in bodies {
        let value = decode(body, &limits()).unwrap();
        let rewritten = encode(&value);
        assert_eq!(decode(&rewritten, &limits()), Ok(value));
    }
}
