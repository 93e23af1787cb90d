use prost::encoding::{encode_key, encode_varint, int32, skip_field, string, DecodeContext, WireType};
use proto_server::codec::{decode_request, decode_response, encode_request, encode_response};
use proto_server::message::{dispatch, Request, Response};
use proto_server::session::respond;

fn wrap(tag: u32, inner: &[u8]) -> Vec<u8> {
    let mut out = Vec::new();
    encode_key(tag, WireType::LengthDelimited, &mut out);
    encode_varint(inner.len() as u64, &mut out);
    out.extend_from_slice(inner);
    out
}

fn prost_echo(tag: u32, text: &str) -> Vec<u8> {
    let mut inner = Vec::new();
    string::encode(1, &text.to_string(), &mut inner);
    wrap(tag, &inner)
}

fn prost_ints(values: &[(u32, i32)]) -> Vec<u8> {
    let mut inner = Vec::new();
    for (tag, v) in values {
        int32::encode(*tag, v, &mut inner);
    }
    wrap(2, &inner)
}

#[test]
fn echo_request_bytes_are_exact() {
    let mut expected = vec![0x0A, 0x0F, 0x0A, 0x0D];
    expected.extend_from_slice(b"Hello, World!");
    assert_eq!(encode_request(&Request::Echo("Hello, World!".to_string())), expected);
}

#[test]
fn add_request_bytes_are_exact() {
    assert_eq!(encode_request(&Request::Add(10, 20)), vec![0x12, 0x04, 0x08, 0x0A, 0x10, 0x14]);
    assert_eq!(encode_response(&Response::Sum(30)), vec![0x12, 0x02, 0x08, 0x1E]);
}

#[test]
fn negative_operands_take_ten_byte_varints() {
    let mut expected = vec![0x12, 22, 0x08, 0xF6];
    expected.extend_from_slice(&[0xFF; 8]);
    expected.extend_from_slice(&[0x01, 0x10, 0xEC]);
    expected.extend_from_slice(&[0xFF; 8]);
    expected.push(0x01);
    assert_eq!(encode_request(&Request::Add(-10, -20)), expected);
}

#[test]
fn zero_fields_and_empty_text_are_left_out() {
    assert_eq!(encode_request(&Request::Add(0, 0)), vec![0x12, 0x00]);
    assert_eq!(encode_request(&Request::Echo(String::new())), vec![0x0A, 0x00]);
    assert_eq!(encode_request(&Request::Empty), Vec::<u8>::new());
    assert_eq!(encode_response(&Response::Sum(0)), vec![0x12, 0x00]);
}

#[test]
fn encoding_agrees_with_prost_field_encoders() {
    for text in ["Hello, World!", "é and ü", "x"] {
        assert_eq!(encode_request(&Request::Echo(text.to_string())), prost_echo(1, text));
        assert_eq!(encode_response(&Response::Echo(text.to_string())), prost_echo(1, text));
    }
    for (a, b) in [(10, 20), (-10, -20), (i32::MAX, 1), (i32::MIN, -1), (7, 0), (0, -3)] {
        let mut fields = Vec::new();
        if a != 0 {
            fields.push((1, a));
        }
        if b != 0 {
            fields.push((2, b));
        }
        assert_eq!(encode_request(&Request::Add(a, b)), prost_ints(&fields));
    }
}

#[test]
fn requests_read_back_as_themselves() {
    let long = "a".repeat(200);
    let cases = vec![
        Request::Echo("Hello, World!".to_string()),
        Request::Echo(String::new()),
        Request::Echo(long),
        Request::Echo("héllo wörld".to_string()),
        Request::Add(10, 20),
        Request::Add(-10, -20),
        Request::Add(i32::MIN, i32::MAX),
        Request::Add(0, 0),
        Request::Empty,
    ];
    for q in cases {
        assert_eq!(decode_request(&encode_request(&q)), Some(q));
    }
}

#[test]
fn responses_read_back_as_themselves() {
    for a in [Response::Echo("Goodbye!".to_string()), Response::Sum(-30), Response::Sum(0)] {
        assert_eq!(decode_response(&encode_response(&a)), Some(a));
    }
}

#[test]
fn long_text_has_a_two_byte_length() {
    let long = "b".repeat(200);
    let bytes = encode_request(&Request::Echo(long.clone()));
    assert_eq!(&bytes[..5], &[0x0A, 0xCB, 0x01, 0x0A, 0xC8]);
    assert_eq!(bytes[5], 0x01);
    assert_eq!(decode_request(&bytes), Some(Request::Echo(long)));
}

#[test]
fn malformed_requests_are_rejected() {
    assert_eq!(decode_request(&[0x0A]), None);
    assert_eq!(decode_request(&[0x0A, 0x05, 0x0A]), None);
    assert_eq!(decode_request(&[0x0A, 0x03, 0x0A, 0x01, 0xFF]), None);
    assert_eq!(decode_request(&[0x08, 0x01]), None);
    assert_eq!(decode_request(&[0x12, 0x02, 0x0A, 0x00]), None);
    assert_eq!(decode_request(&[0x00]), None);
    assert_eq!(decode_request(&[0x0E, 0x00]), None);
    assert_eq!(decode_request(&[0x1B]), None);
    assert_eq!(decode_request(&[0x1C]), None);
    assert_eq!(decode_request(&[0x80]), None);
    let mut overflow = vec![0x18];
    overflow.extend_from_slice(&[0xFF; 9]);
    overflow.push(0x02);
    assert_eq!(decode_request(&overflow), None);
}

#[test]
fn unknown_fields_are_skipped() {
    let mut bytes = vec![0x18, 0x05, 0x21, 1, 2, 3, 4, 5, 6, 7, 8, 0x2D, 1, 2, 3, 4, 0x32, 0x01, 0x09];
    bytes.extend_from_slice(&encode_request(&Request::Add(3, 4)));
    assert_eq!(decode_request(&bytes), Some(Request::Add(3, 4)));
    let mut max_ten = vec![0x18];
    max_ten.extend_from_slice(&[0xFF; 9]);
    max_ten.push(0x01);
    assert_eq!(decode_request(&max_ten), Some(Request::Empty));
}

#[test]
fn later_fields_merge_or_replace() {
    let merged = [0x12, 0x02, 0x08, 0x05, 0x12, 0x02, 0x10, 0x07];
    assert_eq!(decode_request(&merged), Some(Request::Add(5, 7)));
    let mut replaced = encode_request(&Request::Add(1, 2));
    replaced.extend_from_slice(&encode_request(&Request::Echo("hi".to_string())));
    assert_eq!(decode_request(&replaced), Some(Request::Echo("hi".to_string())));
    let mut kept = encode_request(&Request::Echo("kept".to_string()));
    kept.extend_from_slice(&[0x0A, 0x02, 0x18, 0x01]);
    assert_eq!(decode_request(&kept), Some(Request::Echo("kept".to_string())));
}

#[test]
fn empty_message_names_no_request() {
    assert_eq!(decode_request(&[]), Some(Request::Empty));
    assert_eq!(dispatch(&Request::Empty), None);
    assert_eq!(respond(&[]), None);
    assert_eq!(decode_response(&[]), None);
}

#[test]
fn response_reader_skips_a_second_integer() {
    assert_eq!(decode_response(&encode_request(&Request::Add(4, 9))), Some(Response::Sum(4)));
}

#[test]
fn addition_wraps_at_32_bits() {
    assert_eq!(dispatch(&Request::Add(i32::MAX, 1)), Some(Response::Sum(i32::MIN)));
    assert_eq!(dispatch(&Request::Add(i32::MIN, -1)), Some(Response::Sum(i32::MAX)));
    assert_eq!(dispatch(&Request::Add(-10, -20)), Some(Response::Sum(-30)));
    assert_eq!(
        respond(&encode_request(&Request::Add(i32::MAX, i32::MAX))),
        Some(encode_response(&Response::Sum(-2)))
    );
}

#[test]
fn echo_is_identity() {
    for text in ["Hello, World!", "", "ünïcödé ✓"] {
        let q = Request::Echo(text.to_string());
        assert_eq!(dispatch(&q), Some(Response::Echo(text.to_string())));
        assert_eq!(respond(&encode_request(&q)), Some(encode_response(&Response::Echo(text.to_string()))));
    }
}

/// `levels` groups of field 3 nested in one another.
fn nested_groups(levels: usize) -> Vec<u8> {
    let mut bytes = vec![0x1B; levels];
    bytes.extend(std::iter::repeat(0x1C).take(levels));
    bytes
}

/// Whether prost skips the whole of `bytes` as one unknown field at the top level.
fn prost_skips(bytes: &[u8]) -> bool {
    let mut buf = bytes;
    match prost::encoding::decode_key(&mut buf) {
        Ok((tag, wire_type)) => skip_field(wire_type, tag, &mut buf, DecodeContext::default()).is_ok() && buf.is_empty(),
        Err(_) => false,
    }
}

#[test]
fn unknown_groups_are_skipped() {
    let mut bytes = vec![0x1B, 0x08, 0x01, 0x22, 0x00, 0x1C];
    bytes.extend_from_slice(&encode_request(&Request::Add(3, 4)));
    assert_eq!(decode_request(&bytes), Some(Request::Add(3, 4)));
    let inner = [0x1B, 0x1C, 0x0A, 0x02, b'h', b'i'];
    assert_eq!(decode_request(&wrap(1, &inner)), Some(Request::Echo("hi".to_string())));
}

#[test]
fn malformed_groups_are_rejected() {
    assert_eq!(decode_request(&[0x1B, 0x24]), None);
    assert_eq!(decode_request(&[0x1B, 0x08]), None);
    assert_eq!(decode_request(&[0x1B, 0x08, 0x01]), None);
}

#[test]
fn group_nesting_is_limited_as_in_prost() {
    for levels in [1, 2, 99, 100, 101, 102] {
        let bytes = nested_groups(levels);
        let ours = decode_request(&bytes) == Some(Request::Empty);
        assert_eq!(ours, prost_skips(&bytes), "levels {}", levels);
        assert_eq!(ours, levels <= 100, "levels {}", levels);
    }
    let inner_ok = wrap(1, &nested_groups(99));
    assert_eq!(decode_request(&inner_ok), Some(Request::Echo(String::new())));
    let inner_deep = wrap(1, &nested_groups(100));
    assert_eq!(decode_request(&inner_deep), None);
}
