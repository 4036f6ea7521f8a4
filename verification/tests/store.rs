use kvs::engines::kv::codec::{decode_record, Command};
use kvs::engines::kv::KvStore;
use kvs::KVSError;

fn s(text: &str) -> String {
    text.to_string()
}

fn count_lines(bytes: &[u8]) -> usize {
    bytes.iter().filter(|b| **b == b'\n').count()
}

fn line_at(bytes: &[u8], pos: usize) -> Vec<u8> {
    let mut end = pos;
    while end < bytes.len() && bytes[end] != b'\n' {
        end += 1;
    }
    if end < bytes.len() {
        end += 1;
    }
    bytes[pos..end].to_vec()
}

#[test]
fn fresh_store_is_empty() {
    let store = KvStore::new();
    assert_eq!(store.log_bytes().len(), 0);
    assert_eq!(store.get(s("k")).unwrap(), None);
    assert_eq!(store.live_keys(), 0);
    assert!(!store.needs_compaction());
}

#[test]
fn get_after_set_gives_the_value() {
    let mut store = KvStore::new();
    store.set(s("k"), s("v")).unwrap();
    assert_eq!(store.get(s("k")).unwrap(), Some(s("v")));
    assert_eq!(store.get(s("other")).unwrap(), None);
}

#[test]
fn set_writes_the_record_line() {
    let mut store = KvStore::new();
    store.set(s("k"), s("v")).unwrap();
    assert_eq!(store.log_bytes(), b"{\"cmd\":\"Set\",\"key\":\"k\",\"value\":\"v\"}\n");
    assert_eq!(store.log_len(), 36);
    assert_eq!(store.position(&s("k")), Some(0));
    store.set(s("k2"), s("v2")).unwrap();
    assert_eq!(store.position(&s("k2")), Some(36));
}

#[test]
fn overwrite_survives_reopen() {
    let mut store = KvStore::new();
    store.set(s("k"), s("v1")).unwrap();
    store.set(s("k"), s("v2")).unwrap();
    assert_eq!(store.get(s("k")).unwrap(), Some(s("v2")));
    let bytes = store.log_bytes().to_vec();
    drop(store);
    let reopened = KvStore::open(bytes).unwrap();
    assert_eq!(reopened.get(s("k")).unwrap(), Some(s("v2")));
}

#[test]
fn reopen_keeps_the_mapping() {
    let mut store = KvStore::new();
    store.set(s("a"), s("1")).unwrap();
    store.set(s("b"), s("2")).unwrap();
    store.remove(s("a")).unwrap();
    store.set(s("c"), s("3")).unwrap();
    store.set(s("b"), s("4")).unwrap();
    let reopened = store.reopen().unwrap();
    assert_eq!(reopened.get(s("a")).unwrap(), None);
    assert_eq!(reopened.get(s("b")).unwrap(), Some(s("4")));
    assert_eq!(reopened.get(s("c")).unwrap(), Some(s("3")));
    assert_eq!(reopened.live_keys(), 2);
}

#[test]
fn remove_then_get_finds_nothing() {
    let mut store = KvStore::new();
    store.set(s("k"), s("v")).unwrap();
    store.remove(s("k")).unwrap();
    assert_eq!(store.get(s("k")).unwrap(), None);
    assert_eq!(store.remove(s("k")), Err(KVSError::NoSuchKey));
}

#[test]
fn remove_of_absent_key_changes_nothing() {
    let mut store = KvStore::new();
    store.set(s("k"), s("v")).unwrap();
    let before = store.log_bytes().to_vec();
    assert_eq!(store.remove(s("absent")), Err(KVSError::NoSuchKey));
    assert_eq!(store.log_bytes(), &before[..]);
    assert_eq!(store.get(s("k")).unwrap(), Some(s("v")));
}

#[test]
fn remove_writes_a_remove_record() {
    let mut store = KvStore::new();
    store.set(s("k"), s("v")).unwrap();
    store.remove(s("k")).unwrap();
    let bytes = store.log_bytes().to_vec();
    let second = line_at(&bytes, 36);
    assert_eq!(second, b"{\"cmd\":\"Remove\",\"key\":\"k\",\"value\":\"\"}\n".to_vec());
    assert_eq!(store.position(&s("k")), None);
}

#[test]
fn index_points_at_set_records() {
    let mut store = KvStore::new();
    for i in 0..50 {
        store.set(format!("key{}", i % 7), format!("value{}", i)).unwrap();
        if i % 5 == 0 {
            let _ = store.remove(format!("key{}", (i + 3) % 7));
        }
    }
    let bytes = store.log_bytes().to_vec();
    let mut live = 0;
    for k in 0..7 {
        let key = format!("key{}", k);
        if let Some(pos) = store.position(&key) {
            live += 1;
            let record = decode_record(&line_at(&bytes, pos as usize)).unwrap();
            assert_eq!(record.cmd, Command::Put);
            assert_eq!(record.key, key);
            assert_eq!(Some(record.value), store.get(key).unwrap());
        } else {
            assert_eq!(store.get(key).unwrap(), None);
        }
    }
    assert_eq!(live, store.live_keys());
}

#[test]
fn compaction_of_4096_keys_keeps_every_value() {
    let mut store = KvStore::new();
    for i in 1..=4096 {
        store.set(format!("key{}", i), s("value")).unwrap();
    }
    let records = count_lines(store.log_bytes());
    assert_eq!(records, 4096);
    let avg_frame_size = store.log_bytes().len() as f64 / records as f64;
    store.compact().unwrap();
    let size = store.log_bytes().len() as f64;
    assert!(size <= 4096.0 * avg_frame_size * 1.1);
    assert_eq!(count_lines(store.log_bytes()), 4096);
    for i in 1..=4096 {
        assert_eq!(store.get(format!("key{}", i)).unwrap(), Some(s("value")));
    }
}

#[test]
fn compaction_leaves_one_record_for_each_live_key() {
    let mut store = KvStore::new();
    for round in 0..10 {
        for i in 0..100 {
            store.set(format!("key{}", i), format!("value{}-{}", i, round)).unwrap();
        }
    }
    for i in 0..40 {
        store.remove(format!("key{}", i)).unwrap();
    }
    assert_eq!(count_lines(store.log_bytes()), 1040);
    let before = store.log_bytes().len();
    store.compact().unwrap();
    assert_eq!(count_lines(store.log_bytes()), 60);
    assert!(store.log_bytes().len() < before);
    assert_eq!(store.live_keys(), 60);
    for i in 0..40 {
        assert_eq!(store.get(format!("key{}", i)).unwrap(), None);
        assert_eq!(store.position(&format!("key{}", i)), None);
    }
    for i in 40..100 {
        assert_eq!(store.get(format!("key{}", i)).unwrap(), Some(format!("value{}-9", i)));
    }
    let reopened = store.reopen().unwrap();
    for i in 40..100 {
        assert_eq!(reopened.get(format!("key{}", i)).unwrap(), Some(format!("value{}-9", i)));
    }
}

#[test]
fn compaction_of_an_empty_store() {
    let mut store = KvStore::new();
    store.set(s("k"), s("v")).unwrap();
    store.remove(s("k")).unwrap();
    store.compact().unwrap();
    assert_eq!(store.log_bytes().len(), 0);
    assert_eq!(store.get(s("k")).unwrap(), None);
}

#[test]
fn writes_after_compaction_are_read_back() {
    let mut store = KvStore::new();
    store.set(s("a"), s("1")).unwrap();
    store.set(s("a"), s("2")).unwrap();
    store.compact().unwrap();
    store.set(s("b"), s("3")).unwrap();
    store.set(s("a"), s("4")).unwrap();
    assert_eq!(store.get(s("a")).unwrap(), Some(s("4")));
    assert_eq!(store.get(s("b")).unwrap(), Some(s("3")));
    assert_eq!(count_lines(store.log_bytes()), 3);
}

#[test]
fn open_replays_sets_and_removes() {
    let log = b"{\"cmd\":\"Set\",\"key\":\"a\",\"value\":\"1\"}\n{\"cmd\":\"Set\",\"key\":\"b\",\"value\":\"2\"}\n{\"cmd\":\"Remove\",\"key\":\"a\",\"value\":\"\"}\n".to_vec();
    let store = KvStore::open(log).unwrap();
    assert_eq!(store.get(s("a")).unwrap(), None);
    assert_eq!(store.get(s("b")).unwrap(), Some(s("2")));
    assert_eq!(store.position(&s("b")), Some(36));
}

#[test]
fn open_of_an_empty_log() {
    let store = KvStore::open(Vec::new()).unwrap();
    assert_eq!(store.live_keys(), 0);
}

#[test]
fn open_rejects_a_malformed_frame() {
    assert!(matches!(KvStore::open(b"garbage\n".to_vec()), Err(KVSError::Corrupt)));
}

#[test]
fn open_rejects_a_line_without_newline() {
    let log = b"{\"cmd\":\"Set\",\"key\":\"a\",\"value\":\"1\"}".to_vec();
    assert!(matches!(KvStore::open(log), Err(KVSError::Corrupt)));
}

#[test]
fn open_rejects_a_torn_tail() {
    let log = b"{\"cmd\":\"Set\",\"key\":\"a\",\"value\":\"1\"}\n{\"cmd\":\"Set\",\"ke".to_vec();
    assert!(matches!(KvStore::open(log), Err(KVSError::Corrupt)));
}

#[test]
fn open_rejects_a_seek_record() {
    let log = b"{\"cmd\":\"Seek\",\"key\":\"a\",\"value\":\"1\"}\n".to_vec();
    assert!(matches!(KvStore::open(log), Err(KVSError::Corrupt)));
}

#[test]
fn keys_and_values_with_special_characters() {
    let mut store = KvStore::new();
    let pairs = vec![
        (s("quote\"key"), s("back\\slash")),
        (s("new\nline"), s("tab\tand\rreturn")),
        (s("control\u{1}\u{1f}"), s("bell\u{7}\u{8}\u{c}")),
        (s("unicode-\u{e9}\u{4e2d}\u{1f600}"), s("\u{7f}\u{80}\u{7ff}\u{800}\u{ffff}\u{10000}")),
        (s(""), s("")),
    ];
    for (k, v) in pairs.iter() {
        store.set(k.clone(), v.clone()).unwrap();
    }
    for (k, v) in pairs.iter() {
        assert_eq!(store.get(k.clone()).unwrap(), Some(v.clone()));
    }
    assert_eq!(count_lines(store.log_bytes()), pairs.len());
    let reopened = store.reopen().unwrap();
    for (k, v) in pairs.iter() {
        assert_eq!(reopened.get(k.clone()).unwrap(), Some(v.clone()));
    }
}

#[test]
fn log_lines_are_what_serde_json_writes() {
    let mut store = KvStore::new();
    let pairs = vec![
        (s("plain"), s("value")),
        (s("quote\"key"), s("back\\slash/")),
        (s("new\nline"), s("tab\tand\rreturn\u{8}\u{c}")),
        (s("control\u{0}\u{1}\u{b}\u{e}\u{1f}"), s("\u{7f}\u{e9}\u{4e2d}\u{1f600}")),
    ];
    let mut expected = String::new();
    for (k, v) in pairs.iter() {
        store.set(k.clone(), v.clone()).unwrap();
        expected.push_str(&format!(
            "{{\"cmd\":\"Set\",\"key\":{},\"value\":{}}}\n",
            serde_json::to_string(k).unwrap(),
            serde_json::to_string(v).unwrap()
        ));
    }
    assert_eq!(store.log_bytes(), expected.as_bytes());
    let text = String::from_utf8(store.log_bytes().to_vec()).unwrap();
    for (line, (k, v)) in text.lines().zip(pairs.iter()) {
        let parsed: serde_json::Value = serde_json::from_str(line).unwrap();
        assert_eq!(parsed["cmd"].as_str(), Some("Set"));
        assert_eq!(parsed["key"].as_str(), Some(k.as_str()));
        assert_eq!(parsed["value"].as_str(), Some(v.as_str()));
    }
}

#[test]
fn many_keys_each_read_back_their_last_write() {
    let mut store = KvStore::new();
    for round in 0..3 {
        for i in 0..200 {
            store.set(format!("k{}", i), format!("v{}-{}", i, round)).unwrap();
            assert_eq!(store.get(format!("k{}", i)).unwrap(), Some(format!("v{}-{}", i, round)));
        }
    }
    for i in 0..200 {
        assert_eq!(store.get(format!("k{}", i)).unwrap(), Some(format!("v{}-2", i)));
    }
    assert_eq!(store.live_keys(), 200);
}
