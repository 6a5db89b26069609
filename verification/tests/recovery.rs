//! Write-ahead-log replay: a fresh store rebuilt from the log
//! equals the store the acknowledged mutations produced, and a
//! truncated trailing record is discarded silently.

use kvcache::cache::middlewares::{Logger, MiddlewareNext, Replicator, WriteLog};
use kvcache::cache::{Cache, CacheServer};
use kvcache::proto::{encode_command_vec, RequestCommand};

fn wal_image(commands: &[RequestCommand]) -> Vec<u8> {
    let mut image = Vec::new();
    for c in commands {
        image.extend_from_slice(&encode_command_vec(c));
    }
    image
}

#[test]
fn replay_rebuilds_the_store() {
    let commands = vec![
        RequestCommand::Put(b"x".to_vec(), b"1".to_vec()),
        RequestCommand::Put(b"y".to_vec(), b"2".to_vec()),
        RequestCommand::Put(b"x".to_vec(), b"3".to_vec()),
        RequestCommand::Delete(b"y".to_vec()),
    ];
    let image = wal_image(&commands);
    let wal = WriteLog::new("./wal.log");
    let mut cache = Cache::new();
    let count = wal.preload(&image, &mut cache);
    assert_eq!(count, 4);
    assert_eq!(cache.get(b"x").unwrap(), b"3".to_vec());
    assert_eq!(cache.get(b"y").unwrap(), Vec::<u8>::new());
}

#[test]
fn replay_of_empty_log_is_a_no_op() {
    let wal = WriteLog::new("./wal.log");
    let mut cache = Cache::new();
    let count = wal.preload(&Vec::new(), &mut cache);
    assert_eq!(count, 0);
    assert_eq!(cache.keys(10, 0).unwrap(), Vec::<u8>::new());
}

#[test]
fn truncated_trailing_record_is_discarded() {
    let commands = vec![
        RequestCommand::Put(b"a".to_vec(), b"1".to_vec()),
        RequestCommand::Put(b"b".to_vec(), b"2".to_vec()),
    ];
    let mut image = wal_image(&commands);
    // A crash mid-append: the next record's length arrives, most of
    // its payload does not.
    let torn = encode_command_vec(&RequestCommand::Put(b"c".to_vec(), b"3".to_vec()));
    image.extend_from_slice(&torn[..torn.len() - 5]);

    let wal = WriteLog::new("./wal.log");
    let mut cache = Cache::new();
    let count = wal.preload(&image, &mut cache);
    assert_eq!(count, 2);
    assert_eq!(cache.get(b"a").unwrap(), b"1".to_vec());
    assert_eq!(cache.get(b"b").unwrap(), b"2".to_vec());
    assert_eq!(cache.get(b"c").unwrap(), Vec::<u8>::new());
}

#[test]
fn truncated_length_prefix_is_discarded() {
    let commands = vec![RequestCommand::Put(b"a".to_vec(), b"1".to_vec())];
    let mut image = wal_image(&commands);
    image.extend_from_slice(&[7, 0, 0]); // only 3 bytes of the next length
    let wal = WriteLog::new("./wal.log");
    let mut cache = Cache::new();
    assert_eq!(wal.preload(&image, &mut cache), 1);
    assert_eq!(cache.get(b"a").unwrap(), b"1".to_vec());
}

#[test]
fn replay_applies_deletes_of_absent_keys_quietly() {
    let commands = vec![
        RequestCommand::Delete(b"ghost".to_vec()),
        RequestCommand::Put(b"real".to_vec(), b"v".to_vec()),
    ];
    let image = wal_image(&commands);
    let wal = WriteLog::new("./wal.log");
    let mut cache = Cache::new();
    assert_eq!(wal.preload(&image, &mut cache), 2);
    assert_eq!(cache.get(b"real").unwrap(), b"v".to_vec());
}

#[test]
fn what_the_chain_logged_replays_to_what_the_chain_stored() {
    // Run mutations through a live pipeline, write its queue out as
    // the log file's bytes, replay into a fresh store: same state.
    let mut chain = MiddlewareNext::new(
        Logger::new(false),
        WriteLog::new("./wal.log"),
        Replicator::new(Vec::new()),
        Cache::new(),
    );
    chain.on_request(&RequestCommand::Put(b"x".to_vec(), b"v".to_vec())).unwrap();
    chain.on_request(&RequestCommand::Get(b"x".to_vec())).unwrap();
    chain.on_request(&RequestCommand::Put(b"y".to_vec(), b"w".to_vec())).unwrap();
    chain.on_request(&RequestCommand::Delete(b"x".to_vec())).unwrap();

    let mut file: Vec<u8> = Vec::new();
    for record in chain.wal.take_pending() {
        file.extend_from_slice(&record);
    }

    let wal = WriteLog::new("./wal.log");
    let mut rebuilt = Cache::new();
    assert_eq!(wal.preload(&file, &mut rebuilt), 3);
    assert_eq!(rebuilt.get(b"x").unwrap(), Vec::<u8>::new());
    assert_eq!(rebuilt.get(b"y").unwrap(), b"w".to_vec());
    assert_eq!(rebuilt.keys(10, 0).unwrap(), chain.cache.keys(10, 0).unwrap());
}

#[test]
fn handler_dispatch_matches_store_operations() {
    let mut cache = Cache::new();
    let previous = cache.on_request(&RequestCommand::Put(b"k".to_vec(), b"v".to_vec()));
    assert_eq!(previous, Vec::<u8>::new());
    assert_eq!(cache.on_request(&RequestCommand::Get(b"k".to_vec())), b"v".to_vec());
    assert_eq!(cache.on_request(&RequestCommand::Keys(5, 0)), b"k".to_vec());
    assert_eq!(cache.on_request(&RequestCommand::Empty), Vec::<u8>::new());
    assert_eq!(cache.on_request(&RequestCommand::Recv(b"x".to_vec())), Vec::<u8>::new());
    assert_eq!(cache.on_request(&RequestCommand::Error(b"e".to_vec())), Vec::<u8>::new());
    assert_eq!(cache.on_request(&RequestCommand::Delete(b"k".to_vec())), b"v".to_vec());
}
