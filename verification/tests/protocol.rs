//! The wire codec: exact byte layouts, round trips for every
//! command variant, and the partial-read behavior of `decode`.

use kvcache::proto::{decode, encode_vec, DecodeResult, Frame, RequestCommand};

fn round_trip(frame: Frame) {
    let wire = encode_vec(&frame);
    match decode(&wire) {
        DecodeResult::Decoded(parsed, used) => {
            assert_eq!(used, wire.len());
            assert_eq!(parsed, frame);
        },
        _ => panic!("a complete encoded frame must decode"),
    }
}

#[test]
fn round_trip_empty() {
    round_trip(Frame::new(RequestCommand::Empty));
}

#[test]
fn round_trip_get() {
    round_trip(Frame::new(RequestCommand::Get(b"some-key".to_vec())));
}

#[test]
fn round_trip_put() {
    round_trip(Frame::new(RequestCommand::Put(b"k".to_vec(), vec![0, 1, 2, 255])));
}

#[test]
fn round_trip_put_empty_value() {
    round_trip(Frame::new(RequestCommand::Put(b"k".to_vec(), Vec::new())));
}

#[test]
fn round_trip_delete() {
    round_trip(Frame::new(RequestCommand::Delete(b"gone".to_vec())));
}

#[test]
fn round_trip_keys() {
    round_trip(Frame::new(RequestCommand::Keys(10, 3)));
}

#[test]
fn round_trip_error() {
    round_trip(Frame::new(RequestCommand::Error(b"oops".to_vec())));
}

#[test]
fn round_trip_recv() {
    round_trip(Frame::new(RequestCommand::Recv(b"payload".to_vec())));
}

#[test]
fn round_trip_preserves_response_identity() {
    let request = Frame { version: 1, id: 777, command: RequestCommand::Get(b"x".to_vec()) };
    let response = request.to_response(RequestCommand::Recv(b"v".to_vec()));
    assert_eq!(response.version, 1);
    assert_eq!(response.id, 777);
    round_trip(response);
}

#[test]
fn exact_wire_bytes_of_put() {
    // SET "foo" 0x010203 under a fresh request envelope (version 1, id 1).
    let frame = Frame::new(RequestCommand::Put(b"foo".to_vec(), vec![1, 2, 3]));
    let wire = encode_vec(&frame);
    let mut expected: Vec<u8> = Vec::new();
    // body: version, id, tag, key field, value field
    let mut body: Vec<u8> = Vec::new();
    body.push(1); // version
    body.extend_from_slice(&[1, 0, 0, 0, 0, 0, 0, 0]); // id = 1, 8-byte LE
    body.extend_from_slice(&[2, 0, 0, 0]); // tag of SET, 4-byte LE
    body.extend_from_slice(&[3, 0, 0, 0, 0, 0, 0, 0]); // key length
    body.extend_from_slice(b"foo");
    body.extend_from_slice(&[3, 0, 0, 0, 0, 0, 0, 0]); // value length
    body.extend_from_slice(&[1, 2, 3]);
    expected.extend_from_slice(&[(body.len() as u8), 0, 0, 0, 0, 0, 0, 0]); // unit length
    expected.extend_from_slice(&body);
    assert_eq!(wire, expected);
}

#[test]
fn decode_waits_for_length_prefix() {
    let buf = vec![5, 0, 0];
    assert!(matches!(decode(&buf), DecodeResult::NeedMore));
}

#[test]
fn decode_waits_for_body() {
    let frame = Frame::new(RequestCommand::Get(b"key".to_vec()));
    let wire = encode_vec(&frame);
    for cut in 0..wire.len() {
        let partial = wire[..cut].to_vec();
        assert!(matches!(decode(&partial), DecodeResult::NeedMore));
    }
}

#[test]
fn decode_resumes_after_partial_then_complete() {
    let frame = Frame::new(RequestCommand::Get(b"key".to_vec()));
    let wire = encode_vec(&frame);
    let mut buf = wire[..5].to_vec();
    assert!(matches!(decode(&buf), DecodeResult::NeedMore));
    buf.extend_from_slice(&wire[5..]);
    match decode(&buf) {
        DecodeResult::Decoded(parsed, used) => {
            assert_eq!(used, wire.len());
            assert_eq!(parsed, frame);
        },
        _ => panic!("the completed unit must decode"),
    }
}

#[test]
fn decode_rejects_unknown_tag() {
    // A complete unit whose body has a valid version and id but an
    // unknown command discriminant.
    let mut body: Vec<u8> = Vec::new();
    body.push(1);
    body.extend_from_slice(&[1, 0, 0, 0, 0, 0, 0, 0]);
    body.extend_from_slice(&[9, 0, 0, 0]); // no such tag
    let mut wire = vec![body.len() as u8, 0, 0, 0, 0, 0, 0, 0];
    wire.extend_from_slice(&body);
    assert!(matches!(decode(&wire), DecodeResult::Malformed));
}

#[test]
fn decode_rejects_trailing_garbage_in_body() {
    let frame = Frame::new(RequestCommand::Empty);
    let inner = encode_vec(&frame);
    // Re-frame the body with one extra byte appended inside the unit.
    let mut body = inner[8..].to_vec();
    body.push(42);
    let mut wire = vec![body.len() as u8, 0, 0, 0, 0, 0, 0, 0];
    wire.extend_from_slice(&body);
    assert!(matches!(decode(&wire), DecodeResult::Malformed));
}

#[test]
fn decode_rejects_overrunning_field() {
    // GET whose key length claims more bytes than the body holds.
    let mut body: Vec<u8> = Vec::new();
    body.push(1);
    body.extend_from_slice(&[1, 0, 0, 0, 0, 0, 0, 0]);
    body.extend_from_slice(&[1, 0, 0, 0]); // GET
    body.extend_from_slice(&[200, 0, 0, 0, 0, 0, 0, 0]); // key length 200
    body.extend_from_slice(b"short");
    let mut wire = vec![body.len() as u8, 0, 0, 0, 0, 0, 0, 0];
    wire.extend_from_slice(&body);
    assert!(matches!(decode(&wire), DecodeResult::Malformed));
}

#[test]
fn decode_keeps_following_unit_intact() {
    let first = Frame::new(RequestCommand::Get(b"a".to_vec()));
    let second = Frame::new(RequestCommand::Get(b"b".to_vec()));
    let mut wire = encode_vec(&first);
    let first_len = wire.len();
    wire.extend_from_slice(&encode_vec(&second));
    match decode(&wire) {
        DecodeResult::Decoded(parsed, used) => {
            assert_eq!(used, first_len);
            assert_eq!(parsed, first);
            let rest = wire[used..].to_vec();
            match decode(&rest) {
                DecodeResult::Decoded(parsed2, used2) => {
                    assert_eq!(used2, rest.len());
                    assert_eq!(parsed2, second);
                },
                _ => panic!("second unit must decode"),
            }
        },
        _ => panic!("first unit must decode"),
    }
}
