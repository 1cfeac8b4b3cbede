use vault_response::config::Config;
use vault_response::decode::decode;
use vault_response::error::Error;
use vault_response::wire::{Number, WireValue};

fn limits() -> Config {
    Config { max_decode_depth: 8, max_decode_size: 1024 }
}

fn text(s: &str) -> WireValue {
    WireValue::String(s.as_bytes().to_vec())
}

fn whole(n: i128) -> WireValue {
    WireValue::Number(Number::Integer(n))
}

#[test]
fn literals_are_decoded() {
    assert_eq!(decode(b"null", &limits()), Ok(WireValue::Null));
    assert_eq!(decode(b"true", &limits()), Ok(WireValue::Bool(true)));
    assert_eq!(decode(b"false", &limits()), Ok(WireValue::Bool(false)));
    assert_eq!(decode(b" \t\r\n null \n", &limits()), Ok(WireValue::Null));
}

#[test]
fn misspelled_literals_are_rejected() {
    for body in [&b"nul"[..], b"nulL", b"tru", b"fals", b"falsy", b"True", b"nullnull", b"n"] {
        assert_eq!(decode(body, &limits()), Err(Error::DecodeError));
    }
}

#[test]
fn empty_and_blank_bodies_are_rejected() {
    assert_eq!(decode(b"", &limits()), Err(Error::DecodeError));
    assert_eq!(decode(b"   \n", &limits()), Err(Error::DecodeError));
}

#[test]
fn trailing_text_is_rejected() {
    assert_eq!(decode(b"null x", &limits()), Err(Error::DecodeError));
    assert_eq!(decode(b"{} {}", &limits()), Err(Error::DecodeError));
    assert_eq!(decode(b"[1],", &limits()), Err(Error::DecodeError));
}

#[test]
fn integers_are_decoded_exactly() {
    assert_eq!(decode(b"0", &limits()), Ok(whole(0)));
    assert_eq!(decode(b"-0", &limits()), Ok(whole(0)));
    assert_eq!(decode(b"42", &limits()), Ok(whole(42)));
    assert_eq!(decode(b"-17", &limits()), Ok(whole(-17)));
    assert_eq!(decode(b"18446744073709551615", &limits()), Ok(whole(18446744073709551615)));
    assert_eq!(decode(b"-9223372036854775808", &limits()), Ok(whole(-9223372036854775808)));
}

#[test]
fn integers_out_of_range_fail_rather_than_wrap() {
    assert_eq!(decode(b"18446744073709551616", &limits()), Err(Error::DecodeError));
    assert_eq!(decode(b"-9223372036854775809", &limits()), Err(Error::DecodeError));
    assert_eq!(
        decode(b"340282366920938463463374607431768211456", &limits()),
        Err(Error::DecodeError)
    );
    assert_eq!(decode(b"[99999999999999999999999999]", &limits()), Err(Error::DecodeError));
}

#[test]
fn numbers_with_fraction_or_exponent_are_kept_as_written() {
    for body in
        [&b"1.5"[..], b"-0.25", b"1e3", b"1E+3", b"2.5e-10", b"0.0", b"12345678901234567890123.5"]
    {
        assert_eq!(
            decode(body, &limits()),
            Ok(WireValue::Number(Number::Decimal(body.to_vec())))
        );
    }
}

#[test]
fn malformed_numbers_are_rejected() {
    for body in [
        &b"01"[..], b"-", b"+1", b"1.", b".5", b"1e", b"1e+", b"--1", b"0x10", b"1.e3", b"-01",
        b"1 2",
    ] {
        assert_eq!(decode(body, &limits()), Err(Error::DecodeError));
    }
}

#[test]
fn texts_are_decoded_with_their_escapes() {
    assert_eq!(decode(br#""""#, &limits()), Ok(text("")));
    assert_eq!(decode(br#""plain""#, &limits()), Ok(text("plain")));
    assert_eq!(
        decode(br#""\" \\ \/ \b \f \n \r \t""#, &limits()),
        Ok(WireValue::String(vec![
            0x22, 0x20, 0x5c, 0x20, 0x2f, 0x20, 0x08, 0x20, 0x0c, 0x20, 0x0a, 0x20, 0x0d, 0x20,
            0x09,
        ]))
    );
    assert_eq!(
        decode(br#""\u0041\u00e9\u20ac""#, &limits()),
        Ok(WireValue::String(vec![0x41, 0xc3, 0xa9, 0xe2, 0x82, 0xac]))
    );
    assert_eq!(
        decode(br#""\ud83d\ude00""#, &limits()),
        Ok(WireValue::String(vec![0xf0, 0x9f, 0x98, 0x80]))
    );
    assert_eq!(
        decode(br#""\uD83D\uDE00""#, &limits()),
        Ok(WireValue::String(vec![0xf0, 0x9f, 0x98, 0x80]))
    );
    assert_eq!(decode(br#""\u0000""#, &limits()), Ok(WireValue::String(vec![0])));
}

#[test]
fn code_points_become_their_utf8_bytes() {
    assert_eq!(decode(br#""\u007f""#, &limits()), Ok(WireValue::String(vec![0x7f])));
    assert_eq!(decode(br#""\u0080""#, &limits()), Ok(WireValue::String(vec![0xc2, 0x80])));
    assert_eq!(decode(br#""\u07ff""#, &limits()), Ok(WireValue::String(vec![0xdf, 0xbf])));
    assert_eq!(decode(br#""\u0800""#, &limits()), Ok(WireValue::String(vec![0xe0, 0xa0, 0x80])));
    assert_eq!(decode(br#""\ud7ff""#, &limits()), Ok(WireValue::String(vec![0xed, 0x9f, 0xbf])));
    assert_eq!(decode(br#""\ue000""#, &limits()), Ok(WireValue::String(vec![0xee, 0x80, 0x80])));
    assert_eq!(decode(br#""\uffff""#, &limits()), Ok(WireValue::String(vec![0xef, 0xbf, 0xbf])));
    assert_eq!(
        decode(br#""\ud800\udc00""#, &limits()),
        Ok(WireValue::String(vec![0xf0, 0x90, 0x80, 0x80]))
    );
    assert_eq!(
        decode(br#""\udbff\udfff""#, &limits()),
        Ok(WireValue::String(vec![0xf4, 0x8f, 0xbf, 0xbf]))
    );
}

#[test]
fn bytes_above_ascii_pass_through() {
    assert_eq!(
        decode(b"\"\xff\x80caf\xc3\xa9\"", &limits()),
        Ok(WireValue::String(b"\xff\x80caf\xc3\xa9".to_vec()))
    );
}

#[test]
fn malformed_texts_are_rejected() {
    for body in [
        &b"\""[..],
        b"\"abc",
        b"\"a\nb\"",
        b"\"a\x01b\"",
        b"\"a\x1fb\"",
        br#""\x""#,
        br#""\a""#,
        br#""\u12""#,
        br#""\u12g4""#,
        br#""\ud800""#,
        br#""\ud800x""#,
        br#""\ud800\u0041""#,
        br#""\ud800\ud800""#,
        br#""\ud800\n""#,
        br#""\udc00""#,
        br#""\udc00\ud800""#,
        br#""\"#,
        b"'single'",
    ] {
        assert_eq!(decode(body, &limits()), Err(Error::DecodeError));
    }
}

#[test]
fn sequences_and_mappings_are_decoded() {
    assert_eq!(decode(b"[]", &limits()), Ok(WireValue::Sequence(vec![])));
    assert_eq!(decode(b"[ ]", &limits()), Ok(WireValue::Sequence(vec![])));
    assert_eq!(decode(b"{}", &limits()), Ok(WireValue::Mapping(vec![])));
    assert_eq!(
        decode(b" [ 1 , \"a\" ,null,[true] ] ", &limits()),
        Ok(WireValue::Sequence(vec![
            whole(1),
            text("a"),
            WireValue::Null,
            WireValue::Sequence(vec![WireValue::Bool(true)]),
        ]))
    );
    assert_eq!(
        decode(b"{ \"a\" : 1 , \"b\":{\"c\":[]} }", &limits()),
        Ok(WireValue::Mapping(vec![
            (b"a".to_vec(), whole(1)),
            (
                b"b".to_vec(),
                WireValue::Mapping(vec![(b"c".to_vec(), WireValue::Sequence(vec![]))]),
            ),
        ]))
    );
}

#[test]
fn malformed_sequences_and_mappings_are_rejected() {
    for body in [
        &b"["[..], b"]", b"[1", b"[1,", b"[1,]", b"[,1]", b"[1 2]", b"[1}", b"{", b"}", b"{\"a\"}",
        b"{\"a\":}", b"{\"a\":1,}", b"{a:1}", b"{1:2}", b"{\"a\" 1}", b"{\"a\":1 \"b\":2}",
        b"{\"a\":1]", b"{,}",
    ] {
        assert_eq!(decode(body, &limits()), Err(Error::DecodeError));
    }
}

#[test]
fn a_key_named_twice_is_rejected() {
    assert_eq!(decode(br#"{"a":1,"a":2}"#, &limits()), Err(Error::DecodeError));
    assert_eq!(decode(br#"{"a":1,"b":2,"a":3}"#, &limits()), Err(Error::DecodeError));
    assert_eq!(
        decode(br#"{"a":{"a":1},"b":{"a":2}}"#, &limits()).is_ok(),
        true
    );
}

#[test]
fn depth_exactly_at_the_limit_succeeds() {
    let config = Config { max_decode_depth: 3, max_decode_size: 1024 };
    assert_eq!(
        decode(b"[[[]]]", &config),
        Ok(WireValue::Sequence(vec![WireValue::Sequence(vec![WireValue::Sequence(vec![])])]))
    );
    assert!(decode(b"{\"a\":[{\"b\":1}]}", &config).is_ok());
    assert!(decode(b"[[1],[[2]],3]", &config).is_ok());
}

#[test]
fn depth_beyond_the_limit_fails() {
    let config = Config { max_decode_depth: 3, max_decode_size: 1024 };
    assert_eq!(decode(b"[[[[]]]]", &config), Err(Error::DecodeError));
    assert_eq!(decode(b"{\"a\":[{\"b\":[1]}]}", &config), Err(Error::DecodeError));
    assert_eq!(decode(b"[1,[2,[3,[4]]]]", &config), Err(Error::DecodeError));
}

#[test]
fn depth_zero_admits_only_flat_values() {
    let config = Config { max_decode_depth: 0, max_decode_size: 1024 };
    assert_eq!(decode(b"\"x\"", &config), Ok(text("x")));
    assert_eq!(decode(b"7", &config), Ok(whole(7)));
    assert_eq!(decode(b"[]", &config), Err(Error::DecodeError));
    assert_eq!(decode(b"{}", &config), Err(Error::DecodeError));
}

#[test]
fn adversarial_nesting_fails_without_exhausting_the_stack() {
    let config = Config { max_decode_depth: 64, max_decode_size: 4_000_000 };
    let mut body = vec![b'['; 1_000_000];
    body.extend(vec![b']'; 1_000_000]);
    assert_eq!(decode(&body, &config), Err(Error::DecodeError));
    let braces: Vec<u8> = b"{\"a\":".iter().copied().cycle().take(5 * 200_000).collect();
    assert_eq!(decode(&braces, &config), Err(Error::DecodeError));
}

#[test]
fn size_exactly_at_the_limit_succeeds_and_beyond_fails() {
    let body = br#"["0123456789"]"#;
    let exact = Config { max_decode_depth: 8, max_decode_size: body.len() };
    let short = Config { max_decode_depth: 8, max_decode_size: body.len() - 1 };
    assert!(decode(body, &exact).is_ok());
    assert_eq!(decode(body, &short), Err(Error::DecodeError));
    let none = Config { max_decode_depth: 8, max_decode_size: 0 };
    assert_eq!(decode(b"1", &none), Err(Error::DecodeError));
}

#[test]
fn truncated_bodies_are_rejected() {
    let body = br#"{"errors":[],"data":{"policies":["default","root"]}}"#;
    for cut in 0..body.len() {
        assert_eq!(decode(&body[..cut], &limits()), Err(Error::DecodeError));
    }
    assert!(decode(body, &limits()).is_ok());
}

#[test]
fn every_single_byte_is_handled() {
    for b in 0..=255u8 {
        let r = decode(&[b], &limits());
        if b.is_ascii_digit() {
            assert_eq!(r, Ok(whole((b - b'0') as i128)));
        } else {
            assert_eq!(r, Err(Error::DecodeError));
        }
    }
}
