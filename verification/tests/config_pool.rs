//! The configuration record, the startup engine check, and the delegating
//! thread pool.

use kvs::config::{check_engine, decode_conf, encode_conf};
use kvs::{ErrorKind, RayonThreadPool, ThreadPool};

fn s(x: &str) -> String {
    String::from(x)
}

#[test]
fn conf_round_trip() {
    let bytes = encode_conf(&s("kvs"));
    assert_eq!(decode_conf(&bytes).unwrap(), s("kvs"));
}

#[test]
fn conf_garbage_is_codec_error() {
    let err = decode_conf(&vec![1u8, 2, 3]).unwrap_err();
    assert_eq!(err.kind(), ErrorKind::CodecError);
}

#[test]
fn engine_mismatch_refused() {
    let err = check_engine(Some(s("kvs")), s("sled")).unwrap_err();
    assert_eq!(err.kind(), ErrorKind::ConfigMismatch);
}

#[test]
fn engine_match_and_first_run_accepted() {
    assert_eq!(check_engine(Some(s("kvs")), s("kvs")).unwrap(), s("kvs"));
    assert_eq!(check_engine(None, s("sled")).unwrap(), s("sled"));
}

#[test]
fn recorded_conf_refuses_other_engine_after_round_trip() {
    // A directory whose record says one engine refuses a start with the
    // other, whichever way the record traveled through its codec.
    let bytes = encode_conf(&s("kvs"));
    let recorded = decode_conf(&bytes).unwrap();
    let err = check_engine(Some(recorded), s("sled")).unwrap_err();
    assert_eq!(err.kind(), ErrorKind::ConfigMismatch);
}

#[test]
fn error_messages_name_the_failure() {
    let e = kvs::Error::new(ErrorKind::NotFound);
    assert_eq!(e.kind(), ErrorKind::NotFound);
    assert_eq!(e.message(), "Key not found");
}

#[test]
fn pool_runs_spawned_jobs() {
    let pool = RayonThreadPool::new(4).unwrap();
    let (tx, rx) = crossbeam_channel::unbounded();
    for i in 0..8u32 {
        let tx = tx.clone();
        pool.spawn(move || {
            tx.send(i).unwrap();
        });
    }
    let mut got = Vec::new();
    for _ in 0..8 {
        got.push(rx.recv_timeout(std::time::Duration::from_secs(10)).unwrap());
    }
    got.sort();
    assert_eq!(got, vec![0, 1, 2, 3, 4, 5, 6, 7]);
}
