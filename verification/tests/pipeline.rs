//! The middleware chain: taps enqueue exactly the mutating
//! commands, in order, and a terminated sink fails the request
//! instead of dropping its record.

use kvcache::cache::middlewares::{ChainError, Logger, MiddlewareNext, Replicator, WriteLog};
use kvcache::cache::Cache;
use kvcache::proto::{
    decode, deserialize_command, encode_command_vec, DecodeResult, RequestCommand,
};

fn fresh_chain() -> MiddlewareNext {
    MiddlewareNext::new(
        Logger::new(false),
        WriteLog::new("./wal.log"),
        Replicator::new(Vec::new()),
        Cache::new(),
    )
}

#[test]
fn mutation_reaches_both_queues() {
    let mut chain = fresh_chain();
    let put = RequestCommand::Put(b"k".to_vec(), b"v".to_vec());
    let payload = chain.on_request(&put).unwrap();
    assert_eq!(payload, Vec::<u8>::new());

    let wal = chain.wal.take_pending();
    assert_eq!(wal.len(), 1);
    assert_eq!(wal[0], encode_command_vec(&put));

    let repl = chain.replicator.take_pending();
    assert_eq!(repl.len(), 1);
    // The replication record is a complete frame carrying the mutation
    // under the server's version and the fixed fire-and-forget id.
    match decode(&repl[0]) {
        DecodeResult::Decoded(frame, used) => {
            assert_eq!(used, repl[0].len());
            assert_eq!(frame.version, 1);
            assert_eq!(frame.id, 1);
            assert_eq!(frame.command, put);
        },
        _ => panic!("replication record must be a complete frame"),
    }
}

#[test]
fn reads_reach_no_queue() {
    let mut chain = fresh_chain();
    chain.on_request(&RequestCommand::Put(b"k".to_vec(), b"v".to_vec())).unwrap();
    chain.wal.take_pending();
    chain.replicator.take_pending();

    chain.on_request(&RequestCommand::Get(b"k".to_vec())).unwrap();
    chain.on_request(&RequestCommand::Keys(10, 0)).unwrap();
    chain.on_request(&RequestCommand::Empty).unwrap();
    assert_eq!(chain.wal.take_pending().len(), 0);
    assert_eq!(chain.replicator.take_pending().len(), 0);
}

#[test]
fn records_keep_acknowledgment_order() {
    let mut chain = fresh_chain();
    let first = RequestCommand::Put(b"a".to_vec(), b"1".to_vec());
    let second = RequestCommand::Delete(b"a".to_vec());
    let third = RequestCommand::Put(b"b".to_vec(), b"2".to_vec());
    chain.on_request(&first).unwrap();
    chain.on_request(&second).unwrap();
    chain.on_request(&third).unwrap();

    let wal = chain.wal.take_pending();
    assert_eq!(wal.len(), 3);
    assert_eq!(wal[0], encode_command_vec(&first));
    assert_eq!(wal[1], encode_command_vec(&second));
    assert_eq!(wal[2], encode_command_vec(&third));
}

#[test]
fn wal_records_decode_back_to_their_commands() {
    let mut chain = fresh_chain();
    let put = RequestCommand::Put(b"key".to_vec(), vec![9, 9]);
    chain.on_request(&put).unwrap();
    let wal = chain.wal.take_pending();
    // Strip the 8-byte length prefix: the payload is the bare command.
    let body = wal[0][8..].to_vec();
    assert_eq!(deserialize_command(&body).unwrap(), put);
}

#[test]
fn closed_wal_fails_mutations_and_leaves_store_untouched() {
    let mut chain = fresh_chain();
    chain.wal.close();
    let err = chain.on_request(&RequestCommand::Put(b"k".to_vec(), b"v".to_vec())).unwrap_err();
    assert_eq!(err, ChainError::WalUnavailable);
    assert_eq!(chain.wal.take_pending().len(), 0);
    assert_eq!(chain.replicator.take_pending().len(), 0);
    // The store never saw the mutation.
    let read = chain.on_request(&RequestCommand::Get(b"k".to_vec())).unwrap();
    assert_eq!(read, Vec::<u8>::new());
}

#[test]
fn closed_replicator_fails_mutations_after_wal_enqueue() {
    let mut chain = fresh_chain();
    chain.replicator.close();
    let put = RequestCommand::Put(b"k".to_vec(), b"v".to_vec());
    let err = chain.on_request(&put).unwrap_err();
    assert_eq!(err, ChainError::ReplicatorUnavailable);
    // The taps run in order: the log already holds the record, the
    // replication queue does not, and the store was never touched.
    let wal = chain.wal.take_pending();
    assert_eq!(wal.len(), 1);
    assert_eq!(wal[0], encode_command_vec(&put));
    assert_eq!(chain.replicator.take_pending().len(), 0);
    let read = chain.on_request(&RequestCommand::Get(b"k".to_vec())).unwrap();
    assert_eq!(read, Vec::<u8>::new());
}

#[test]
fn closed_sinks_still_admit_reads() {
    let mut chain = fresh_chain();
    chain.on_request(&RequestCommand::Put(b"k".to_vec(), b"v".to_vec())).unwrap();
    chain.wal.close();
    chain.replicator.close();
    let read = chain.on_request(&RequestCommand::Get(b"k".to_vec())).unwrap();
    assert_eq!(read, b"v".to_vec());
}

#[test]
fn sink_error_message_names_the_class() {
    assert_eq!(ChainError::WalUnavailable.message(), b"sink-unavailable".to_vec());
    assert_eq!(ChainError::ReplicatorUnavailable.message(), b"sink-unavailable".to_vec());
}

#[test]
fn put_answers_previous_value() {
    let mut chain = fresh_chain();
    chain.on_request(&RequestCommand::Put(b"k".to_vec(), b"old".to_vec())).unwrap();
    let previous = chain.on_request(&RequestCommand::Put(b"k".to_vec(), b"new".to_vec())).unwrap();
    assert_eq!(previous, b"old".to_vec());
    let gone = chain.on_request(&RequestCommand::Delete(b"k".to_vec())).unwrap();
    assert_eq!(gone, b"new".to_vec());
}
