//! Behavior of the log-structured store: point lookups, durability across
//! reopen, crash safety, and compaction.

use kvs::replay::Segment;
use kvs::store::KvStore;
use kvs::ErrorKind;

fn s(x: &str) -> String {
    String::from(x)
}

#[test]
fn scenario_set_get_remove() {
    let mut store = KvStore::new();
    store.set(s("a"), s("1")).unwrap();
    assert_eq!(store.get(s("a")).unwrap(), Some(s("1")));
    store.remove(s("a")).unwrap();
    assert_eq!(store.get(s("a")).unwrap(), None);
    let err = store.remove(s("a")).unwrap_err();
    assert_eq!(err.kind(), ErrorKind::NotFound);
}

#[test]
fn point_lookup_until_overwritten() {
    let mut store = KvStore::new();
    store.set(s("k"), s("v")).unwrap();
    assert_eq!(store.get(s("k")).unwrap(), Some(s("v")));
    assert_eq!(store.get(s("k")).unwrap(), Some(s("v")));
    store.set(s("other"), s("w")).unwrap();
    assert_eq!(store.get(s("k")).unwrap(), Some(s("v")));
}

#[test]
fn overwrite_keeps_last_value() {
    let mut store = KvStore::new();
    store.set(s("k"), s("v1")).unwrap();
    store.set(s("k"), s("v2")).unwrap();
    assert_eq!(store.get(s("k")).unwrap(), Some(s("v2")));
}

#[test]
fn remove_absent_key_not_found() {
    let mut store = KvStore::new();
    let err = store.remove(s("missing")).unwrap_err();
    assert_eq!(err.kind(), ErrorKind::NotFound);
}

#[test]
fn reopen_thousand_entries() {
    let mut store = match KvStore::open(false, false, Vec::new()) {
        Ok(st) => st,
        Err(_) => panic!("fresh open failed"),
    };
    for i in 0..1000u32 {
        store.set(format!("key{}", i), format!("val{}", i)).unwrap();
    }
    let segments = store.into_segments();
    let reopened = KvStore::open(true, false, segments).unwrap();
    for i in 0..1000u32 {
        assert_eq!(
            reopened.get(format!("key{}", i)).unwrap(),
            Some(format!("val{}", i))
        );
    }
}

#[test]
fn durability_after_mixed_mutations() {
    let mut store = KvStore::new();
    store.set(s("a"), s("1")).unwrap();
    store.set(s("b"), s("2")).unwrap();
    store.set(s("a"), s("3")).unwrap();
    store.remove(s("b")).unwrap();
    store.set(s("c"), s("4")).unwrap();
    let reopened = KvStore::open(true, false, store.into_segments()).unwrap();
    assert_eq!(reopened.get(s("a")).unwrap(), Some(s("3")));
    assert_eq!(reopened.get(s("b")).unwrap(), None);
    assert_eq!(reopened.get(s("c")).unwrap(), Some(s("4")));
}

#[test]
fn torn_record_refused_on_open() {
    let mut store = KvStore::new();
    store.set(s("a"), s("1")).unwrap();
    let mut segments = store.into_segments();
    let record = kvs::codec::encode_cmd(&kvs::Cmd::set(s("b"), s("2")));
    let cut = record.len() / 2;
    let last = segments.len() - 1;
    segments[last].data.extend_from_slice(&record[..cut]);
    let err = KvStore::open(true, false, segments).unwrap_err();
    assert_eq!(err.kind(), ErrorKind::CorruptState);
}

#[test]
fn untorn_tail_keeps_prior_state() {
    let mut store = KvStore::new();
    store.set(s("a"), s("1")).unwrap();
    let segments = store.into_segments();
    let reopened = KvStore::open(true, false, segments).unwrap();
    assert_eq!(reopened.get(s("a")).unwrap(), Some(s("1")));
    assert_eq!(reopened.get(s("b")).unwrap(), None);
}

#[test]
fn open_refused_while_compact_lock_exists() {
    let store = {
        let mut st = KvStore::new();
        st.set(s("a"), s("1")).unwrap();
        st
    };
    let err = KvStore::open(true, true, store.into_segments()).unwrap_err();
    assert_eq!(err.kind(), ErrorKind::CorruptState);
}

#[test]
fn open_refused_on_empty_initialized_directory() {
    let err = KvStore::open(true, false, Vec::new()).unwrap_err();
    assert_eq!(err.kind(), ErrorKind::CorruptState);
}

#[test]
fn open_refused_on_id_gap() {
    let segments = vec![
        Segment { id: 1, data: Vec::new() },
        Segment { id: 4, data: Vec::new() },
    ];
    let err = KvStore::open(true, false, segments).unwrap_err();
    assert_eq!(err.kind(), ErrorKind::CorruptState);
}

#[test]
fn open_refused_on_leftover_initial_segment() {
    let segments = vec![Segment { id: 2, data: Vec::new() }];
    let err = KvStore::open(false, false, segments).unwrap_err();
    assert_eq!(err.kind(), ErrorKind::CorruptState);
}

#[test]
fn forced_compaction_preserves_answers() {
    let mut store = KvStore::new();
    for i in 0..50u32 {
        store.set(format!("k{}", i), format!("v{}", i)).unwrap();
    }
    store.remove(s("k7")).unwrap();
    store.set(s("k9"), s("fresh")).unwrap();
    let before = store.segment_count();
    store.compact().unwrap();
    assert_eq!(store.segment_count(), before + 1);
    for i in 0..50u32 {
        let expect = if i == 7 {
            None
        } else if i == 9 {
            Some(s("fresh"))
        } else {
            Some(format!("v{}", i))
        };
        assert_eq!(store.get(format!("k{}", i)).unwrap(), expect);
    }
}

#[test]
fn compaction_keeps_tombstones_for_older_segments() {
    let mut store = KvStore::new();
    store.set(s("a"), s("old")).unwrap();
    store.compact().unwrap();
    // The binding of "a" now lives in a read-only segment.
    store.remove(s("a")).unwrap();
    store.compact().unwrap();
    assert_eq!(store.get(s("a")).unwrap(), None);
    // The erase must survive a reopen too.
    let reopened = KvStore::open(true, false, store.into_segments()).unwrap();
    assert_eq!(reopened.get(s("a")).unwrap(), None);
}

#[test]
fn heavy_traffic_compacts_and_keeps_last_value() {
    let mut store = KvStore::new();
    let v1 = "x".repeat(1024);
    let v2 = "y".repeat(1024);
    let mut last = String::new();
    let mut written: usize = 0;
    let mut flip = false;
    while written < 2 * 1024 * 1024 {
        let v = if flip { v1.clone() } else { v2.clone() };
        flip = !flip;
        written += v.len();
        last = v.clone();
        store.set(s("the-key"), v).unwrap();
    }
    assert!(store.segment_count() >= 2, "no compaction ran");
    assert!(store.segment_count() <= 3);
    assert_eq!(store.get(s("the-key")).unwrap(), Some(last));
}

#[test]
fn interleaved_disjoint_prefixes_do_not_mix() {
    let mut store = KvStore::new();
    for i in 0..40u32 {
        store.set(format!("left:{}", i), format!("L{}", i)).unwrap();
        store.set(format!("right:{}", i), format!("R{}", i)).unwrap();
        if i % 3 == 0 {
            assert_eq!(
                store.get(format!("left:{}", i)).unwrap(),
                Some(format!("L{}", i))
            );
        }
    }
    for i in 0..40u32 {
        assert_eq!(
            store.get(format!("left:{}", i)).unwrap(),
            Some(format!("L{}", i))
        );
        assert_eq!(
            store.get(format!("right:{}", i)).unwrap(),
            Some(format!("R{}", i))
        );
    }
}

#[test]
fn pending_ops_drain_once() {
    let mut store = KvStore::new();
    store.set(s("a"), s("1")).unwrap();
    let ops = store.take_pending();
    assert!(!ops.is_empty());
    let again = store.take_pending();
    assert!(again.is_empty());
    assert_eq!(store.get(s("a")).unwrap(), Some(s("1")));
}

#[test]
fn pending_ops_mirror_one_append() {
    let mut store = KvStore::new();
    let _ = store.take_pending();
    store.set(s("a"), s("1")).unwrap();
    let ops = store.take_pending();
    assert_eq!(ops.len(), 1);
    let expect = kvs::codec::encode_cmd(&kvs::Cmd::set(s("a"), s("1")));
    match &ops[0] {
        kvs::store::FileOp::AppendSegment { id, bytes } => {
            assert_eq!(*id, 2);
            assert_eq!(*bytes, expect);
        }
        _ => panic!("wrong operation"),
    }
}

#[test]
fn active_segment_id_tracks_catalog() {
    let mut store = KvStore::new();
    assert_eq!(store.segment_count(), 1);
    assert_eq!(store.active_id(), 2);
    store.set(s("a"), s("1")).unwrap();
    store.compact().unwrap();
    assert_eq!(store.segment_count(), 2);
    assert_eq!(store.active_id(), 3);
}
