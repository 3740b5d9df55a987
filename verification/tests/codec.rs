use kvs::json::{read_token, write_number, write_text, Fault, Token};
use kvs::op::{decode_op, encode_op, Op};

fn s(text: &str) -> String {
    text.to_string()
}

#[test]
fn a_put_record_is_written_as_a_json_object() {
    let op = Op::set(s("k"), s("v"));
    let bytes = encode_op(&op);
    assert_eq!(
        String::from_utf8(bytes).unwrap(),
        "{\"Set\":{\"key\":\"k\",\"value\":\"v\"}}"
    );
}

#[test]
fn a_rm_record_is_written_as_a_json_object() {
    let op = Op::rm(s("k"));
    let bytes = encode_op(&op);
    assert_eq!(String::from_utf8(bytes).unwrap(), "{\"Rm\":{\"key\":\"k\"}}");
}

#[test]
fn the_constructors_build_the_variants() {
    assert_eq!(Op::set(s("a"), s("b")), Op::Put { key: s("a"), value: s("b") });
    assert_eq!(Op::rm(s("a")), Op::Rm { key: s("a") });
}

#[test]
fn strings_are_escaped_as_json_asks() {
    let op = Op::set(s("a\"b"), s("line\nfeed\\tab\t\u{1}"));
    let bytes = encode_op(&op);
    assert_eq!(
        String::from_utf8(bytes.clone()).unwrap(),
        "{\"Set\":{\"key\":\"a\\\"b\",\"value\":\"line\\nfeed\\\\tab\\t\\u0001\"}}"
    );
    let (back, end) = decode_op(&bytes, 0).unwrap();
    assert_eq!(back, op);
    assert_eq!(end, bytes.len());
}

#[test]
fn a_record_is_read_back_whatever_follows_it() {
    let op = Op::set(s("ключ"), s("значение \u{1F600}"));
    let mut bytes = b"   ".to_vec();
    bytes.extend_from_slice(&encode_op(&op));
    let end_of_record = bytes.len();
    bytes.extend_from_slice(b"{\"Rm\":{\"key\":\"x\"}}");
    let (back, end) = decode_op(&bytes, 0).unwrap();
    assert_eq!(back, op);
    assert_eq!(end, end_of_record);
    let (next, end) = decode_op(&bytes, end).unwrap();
    assert_eq!(next, Op::rm(s("x")));
    assert_eq!(end, bytes.len());
}

#[test]
fn escapes_of_any_kind_are_read() {
    let bytes = b"{\"Set\":{\"key\":\"\\u0041\\/\",\"value\":\"\\ud83d\\ude00\"}}";
    let (op, end) = decode_op(bytes, 0).unwrap();
    assert_eq!(op, Op::set(s("A/"), s("\u{1F600}")));
    assert_eq!(end, bytes.len());
}

#[test]
fn a_record_that_ends_too_early_is_incomplete() {
    let whole = encode_op(&Op::set(s("key"), s("value")));
    for cut in 0..whole.len() {
        assert_eq!(decode_op(&whole[..cut], 0).unwrap_err(), Fault::Incomplete);
    }
    assert_eq!(decode_op(b"", 0).unwrap_err(), Fault::Incomplete);
    assert_eq!(decode_op(b"  \n", 0).unwrap_err(), Fault::Incomplete);
}

#[test]
fn bytes_that_are_no_record_are_malformed() {
    assert_eq!(decode_op(b"{\"Get\":{\"key\":\"a\"}}", 0).unwrap_err(), Fault::Malformed);
    assert_eq!(decode_op(b"[1,2]", 0).unwrap_err(), Fault::Malformed);
    assert_eq!(decode_op(b"{\"Set\":{\"key\":1,\"value\":\"v\"}}", 0).unwrap_err(), Fault::Malformed);
    assert_eq!(decode_op(b"{\"Rm\":{\"key\":\"a\",}}", 0).unwrap_err(), Fault::Malformed);
    assert_eq!(decode_op(b"{\"Rm\":{\"key\":\"\\x\"}}", 0).unwrap_err(), Fault::Malformed);
    assert_eq!(decode_op(b"{\"Rm\":{\"key\":\"a\nb\"}}", 0).unwrap_err(), Fault::Malformed);
    assert_eq!(decode_op(b"{\"Rm\":{\"key\":\"\xff\"}}", 0).unwrap_err(), Fault::Malformed);
}

#[test]
fn tokens_are_read_one_by_one() {
    let bytes = b" { \"a\\n\" : 42 , null }x";
    let mut pos = 0;
    let mut seen = Vec::new();
    loop {
        match read_token(bytes, pos) {
            Ok((token, end)) => {
                seen.push(format!("{:?}", token));
                pos = end;
            }
            Err(fault) => {
                assert_eq!(fault, Fault::Malformed);
                break;
            }
        }
    }
    assert_eq!(
        seen,
        vec!["Open", "Text(\"a\\n\")", "Colon", "Number(42)", "Comma", "Null", "Close"]
    );
    assert_eq!(pos, bytes.len() - 1);
}

#[test]
fn numbers_are_read_as_json_asks() {
    assert!(matches!(read_token(b"0,", 0), Ok((Token::Number(0), 1))));
    assert!(matches!(read_token(b"18446744073709551615 ", 0), Ok((Token::Number(u64::MAX), 20))));
    assert_eq!(read_token(b"18446744073709551616 ", 0).unwrap_err(), Fault::Malformed);
    assert_eq!(read_token(b"99999999999999999999999 ", 0).unwrap_err(), Fault::Malformed);
    assert_eq!(read_token(b"01,", 0).unwrap_err(), Fault::Malformed);
    assert_eq!(read_token(b"12", 0).unwrap_err(), Fault::Incomplete);
    assert_eq!(read_token(b"-1,", 0).unwrap_err(), Fault::Malformed);
    assert_eq!(read_token(b"nul", 0).unwrap_err(), Fault::Incomplete);
    assert_eq!(read_token(b"nil", 0).unwrap_err(), Fault::Malformed);
    assert_eq!(read_token(b"nulx", 0).unwrap_err(), Fault::Malformed);
}

#[test]
fn numbers_are_written_in_decimal() {
    let mut out = b"x".to_vec();
    write_number(&mut out, 0);
    write_number(&mut out, 7);
    write_number(&mut out, 1234567890);
    write_number(&mut out, u64::MAX);
    assert_eq!(String::from_utf8(out).unwrap(), "x07123456789018446744073709551615");
}

#[test]
fn text_is_written_as_a_literal_and_not_as_it_is() {
    let mut out = Vec::new();
    write_text(&mut out, "plain");
    assert_eq!(out, b"\"plain\"".to_vec());
    assert_ne!(out, b"plain".to_vec());
    let (token, end) = read_token(&out, 0).unwrap();
    assert!(matches!(token, Token::Text(text) if text == "plain"));
    assert_eq!(end, out.len());
}

#[test]
fn the_members_of_a_record_are_read_in_either_order() {
    let bytes = b"{\"Set\":{\"value\":\"v\",\"key\":\"k\"}}";
    let (op, end) = decode_op(bytes, 0).unwrap();
    assert_eq!(op, Op::set(s("k"), s("v")));
    assert_eq!(end, bytes.len());
    assert_eq!(
        decode_op(b"{\"Set\":{\"key\":\"k\",\"key\":\"v\"}}", 0).unwrap_err(),
        Fault::Malformed
    );
    assert_eq!(
        decode_op(b"{\"Set\":{\"key\":\"k\",\"value\":\"v\",\"more\":\"x\"}}", 0).unwrap_err(),
        Fault::Malformed
    );
    assert_eq!(
        decode_op(b"{\"Set\":{\"value\":\"v\",\"ke", 0).unwrap_err(),
        Fault::Incomplete
    );
}
