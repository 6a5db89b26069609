//! The server core: framing over readiness events, per-connection
//! FIFO, version discipline, token allocation, and the connection
//! table.

use kvcache::cache::middlewares::{Logger, MiddlewareNext, Replicator, WriteLog};
use kvcache::cache::Cache;
use kvcache::proto::{decode, encode_vec, DecodeResult, Frame, RequestCommand};
use kvcache::server::{next, ServerCore, Token};

fn fresh_server() -> ServerCore {
    let chain = MiddlewareNext::new(
        Logger::new(false),
        WriteLog::new("./wal.log"),
        Replicator::new(Vec::new()),
        Cache::new(),
    );
    ServerCore::new(chain, Token(0))
}

fn request(id: u64, command: RequestCommand) -> Vec<u8> {
    encode_vec(&Frame { version: 1, id, command })
}

/// Splits a response byte stream back into frames.
fn parse_responses(mut bytes: Vec<u8>) -> Vec<Frame> {
    let mut frames = Vec::new();
    loop {
        match decode(&bytes) {
            DecodeResult::Decoded(f, used) => {
                frames.push(f);
                bytes = bytes[used..].to_vec();
            },
            DecodeResult::NeedMore => {
                assert!(bytes.is_empty(), "responses must be whole frames");
                return frames;
            },
            DecodeResult::Malformed => panic!("responses must be well-formed"),
        }
    }
}

#[test]
fn token_allocator_hands_out_consecutive_tokens() {
    let mut current = Token(1);
    assert_eq!(next(&mut current), Token(1));
    assert_eq!(next(&mut current), Token(2));
    assert_eq!(next(&mut current), Token(3));
    assert_eq!(current, Token(4));
}

#[test]
fn set_get_delete_get_round_trip() {
    // SET "foo" 0x010203 answers Recv(empty); GET answers the value;
    // DELETE answers the value; a second GET answers empty.
    let mut server = fresh_server();
    let t = server.accept_connection();

    let (out, close) =
        server.on_readable(t, &request(1, RequestCommand::Put(b"foo".to_vec(), vec![1, 2, 3])));
    assert!(!close);
    let frames = parse_responses(out);
    assert_eq!(frames.len(), 1);
    assert_eq!(frames[0].command, RequestCommand::Recv(Vec::new()));

    let (out, _) = server.on_readable(t, &request(2, RequestCommand::Get(b"foo".to_vec())));
    let frames = parse_responses(out);
    assert_eq!(frames[0].command, RequestCommand::Recv(vec![1, 2, 3]));

    let (out, _) = server.on_readable(t, &request(3, RequestCommand::Delete(b"foo".to_vec())));
    let frames = parse_responses(out);
    assert_eq!(frames[0].command, RequestCommand::Recv(vec![1, 2, 3]));

    let (out, _) = server.on_readable(t, &request(4, RequestCommand::Get(b"foo".to_vec())));
    let frames = parse_responses(out);
    assert_eq!(frames[0].command, RequestCommand::Recv(Vec::new()));
}

#[test]
fn keys_page_over_two_keys() {
    let mut server = fresh_server();
    let t = server.accept_connection();
    server.on_readable(t, &request(1, RequestCommand::Put(b"a".to_vec(), b"1".to_vec())));
    server.on_readable(t, &request(2, RequestCommand::Put(b"b".to_vec(), b"2".to_vec())));
    let (out, _) = server.on_readable(t, &request(3, RequestCommand::Keys(10, 0)));
    let frames = parse_responses(out);
    assert_eq!(frames[0].command, RequestCommand::Recv(b"a\r\nb".to_vec()));
}

#[test]
fn responses_keep_request_order_and_identity() {
    // Several requests arriving in one readiness event are answered
    // in arrival order, each response under its request's id.
    let mut server = fresh_server();
    let t = server.accept_connection();
    let mut bytes = Vec::new();
    bytes.extend_from_slice(&request(11, RequestCommand::Put(b"k".to_vec(), b"v".to_vec())));
    bytes.extend_from_slice(&request(22, RequestCommand::Get(b"k".to_vec())));
    bytes.extend_from_slice(&request(33, RequestCommand::Get(b"absent".to_vec())));
    let (out, close) = server.on_readable(t, &bytes);
    assert!(!close);
    let frames = parse_responses(out);
    assert_eq!(frames.len(), 3);
    assert_eq!(frames[0].id, 11);
    assert_eq!(frames[0].version, 1);
    assert_eq!(frames[0].command, RequestCommand::Recv(Vec::new()));
    assert_eq!(frames[1].id, 22);
    assert_eq!(frames[1].command, RequestCommand::Recv(b"v".to_vec()));
    assert_eq!(frames[2].id, 33);
    assert_eq!(frames[2].command, RequestCommand::Recv(Vec::new()));
}

#[test]
fn partial_frame_waits_for_the_rest() {
    let mut server = fresh_server();
    let t = server.accept_connection();
    let wire = request(5, RequestCommand::Put(b"k".to_vec(), b"v".to_vec()));
    let (head, tail) = wire.split_at(7);

    let (out, close) = server.on_readable(t, head);
    assert!(out.is_empty());
    assert!(!close);

    let (out, close) = server.on_readable(t, tail);
    assert!(!close);
    let frames = parse_responses(out);
    assert_eq!(frames.len(), 1);
    assert_eq!(frames[0].id, 5);
    assert_eq!(frames[0].command, RequestCommand::Recv(Vec::new()));
}

#[test]
fn foreign_version_closes_without_reply() {
    // A frame with version 2: the server closes the connection and
    // never writes a reply.
    let mut server = fresh_server();
    let t = server.accept_connection();
    let wire = encode_vec(&Frame {
        version: 2,
        id: 9,
        command: RequestCommand::Get(b"k".to_vec()),
    });
    let (out, close) = server.on_readable(t, &wire);
    assert!(out.is_empty());
    assert!(close);
    // The connection is gone: a later event for its token is sporadic.
    let (out, close) = server.on_readable(t, &request(1, RequestCommand::Empty));
    assert!(out.is_empty());
    assert!(!close);
}

#[test]
fn malformed_frame_closes_without_reply() {
    let mut server = fresh_server();
    let t = server.accept_connection();
    let mut body = vec![1u8]; // version
    body.extend_from_slice(&[7, 0, 0, 0, 0, 0, 0, 0]); // id
    body.extend_from_slice(&[42, 0, 0, 0]); // unknown tag
    let mut wire = vec![body.len() as u8, 0, 0, 0, 0, 0, 0, 0];
    wire.extend_from_slice(&body);
    let (out, close) = server.on_readable(t, &wire);
    assert!(out.is_empty());
    assert!(close);
}

#[test]
fn terminated_sink_answers_error_and_closes() {
    let mut server = fresh_server();
    let t = server.accept_connection();
    server.chain.wal.close();
    let (out, close) =
        server.on_readable(t, &request(4, RequestCommand::Put(b"k".to_vec(), b"v".to_vec())));
    assert!(close);
    let frames = parse_responses(out);
    assert_eq!(frames.len(), 1);
    assert_eq!(frames[0].id, 4);
    assert_eq!(frames[0].version, 1);
    assert_eq!(frames[0].command, RequestCommand::Error(b"sink-unavailable".to_vec()));
}

#[test]
fn two_connections_interleave_independently() {
    // Two concurrent client connections issue interleaved SETs; both
    // receive correctly correlated responses by id.
    let mut server = fresh_server();
    let c1 = server.accept_connection();
    let c2 = server.accept_connection();
    assert_ne!(c1, c2);

    let (out1, _) =
        server.on_readable(c1, &request(100, RequestCommand::Put(b"k1".to_vec(), b"v1".to_vec())));
    let (out2, _) =
        server.on_readable(c2, &request(200, RequestCommand::Put(b"k2".to_vec(), b"v2".to_vec())));
    let (out3, _) = server.on_readable(c1, &request(101, RequestCommand::Get(b"k2".to_vec())));
    let (out4, _) = server.on_readable(c2, &request(201, RequestCommand::Get(b"k1".to_vec())));

    assert_eq!(parse_responses(out1)[0].id, 100);
    assert_eq!(parse_responses(out2)[0].id, 200);
    let f3 = parse_responses(out3);
    assert_eq!(f3[0].id, 101);
    assert_eq!(f3[0].command, RequestCommand::Recv(b"v2".to_vec()));
    let f4 = parse_responses(out4);
    assert_eq!(f4[0].id, 201);
    assert_eq!(f4[0].command, RequestCommand::Recv(b"v1".to_vec()));
}

#[test]
fn one_connection_buffers_while_another_talks() {
    let mut server = fresh_server();
    let c1 = server.accept_connection();
    let c2 = server.accept_connection();
    let wire = request(7, RequestCommand::Put(b"x".to_vec(), b"y".to_vec()));
    let (head, tail) = wire.split_at(10);

    let (out, _) = server.on_readable(c1, head);
    assert!(out.is_empty());
    // A whole exchange on the other connection in between.
    let (out2, _) = server.on_readable(c2, &request(8, RequestCommand::Get(b"x".to_vec())));
    assert_eq!(parse_responses(out2)[0].command, RequestCommand::Recv(Vec::new()));
    // The first connection's frame completes undisturbed.
    let (out, _) = server.on_readable(c1, tail);
    assert_eq!(parse_responses(out)[0].id, 7);
}

#[test]
fn peer_close_reclaims_the_connection() {
    let mut server = fresh_server();
    let t = server.accept_connection();
    server.on_readable(t, &request(1, RequestCommand::Put(b"k".to_vec(), b"v".to_vec())));
    server.remove_connection(t);
    let (out, close) = server.on_readable(t, &request(2, RequestCommand::Get(b"k".to_vec())));
    assert!(out.is_empty());
    assert!(!close);
}

#[test]
fn sporadic_event_for_unknown_token_is_ignored() {
    let mut server = fresh_server();
    let _ = server.accept_connection();
    let (out, close) = server.on_readable(Token(999), &request(1, RequestCommand::Empty));
    assert!(out.is_empty());
    assert!(!close);
}

#[test]
fn restart_with_same_wal_recovers_the_mutation() {
    // SET "x" "v", kill the server before the store outlives it,
    // restart with the same log: GET "x" answers Recv("v").
    let mut server = fresh_server();
    let t = server.accept_connection();
    server.on_readable(t, &request(1, RequestCommand::Put(b"x".to_vec(), b"v".to_vec())));

    // The sink worker had flushed the queue to the OS before the
    // crash: the file holds the drained records, end to end.
    let mut file = Vec::new();
    for record in server.chain.wal.take_pending() {
        file.extend_from_slice(&record);
    }
    drop(server);

    // A fresh process: recovery replays the file before serving.
    let wal = WriteLog::new("./wal.log");
    let mut cache = Cache::new();
    assert_eq!(wal.preload(&file, &mut cache), 1);
    let chain = MiddlewareNext::new(Logger::new(false), wal, Replicator::new(Vec::new()), cache);
    let mut server = ServerCore::new(chain, Token(0));
    let t = server.accept_connection();
    let (out, _) = server.on_readable(t, &request(2, RequestCommand::Get(b"x".to_vec())));
    assert_eq!(parse_responses(out)[0].command, RequestCommand::Recv(b"v".to_vec()));
}
