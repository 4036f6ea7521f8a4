use kvs::engines::kv::codec::Command;
use kvs::engines::kv::key::MAX_SEQUENCE_NUM;
use kvs::engines::kv::lsm::{build_table, insert_in_key_order, memtable_entries, KvStore};
use kvs::engines::kv::key::InternalKey;
use kvs::engines::kv::memtable::MemTable;
use kvs::engines::kv::table::{decode_table, lookup_in_table, Entry};
use kvs::engines::kv::version::VersionEdit;
use kvs::KVSError;

fn s(text: &str) -> String {
    text.to_string()
}

fn entry(user_key: &str, seq: u64) -> Entry {
    Entry { key: InternalKey::new(&user_key.to_string(), seq, Command::Put), pos: seq as i64, len: 1 }
}

fn level_counts(store: &KvStore) -> Vec<usize> {
    store.versions.versions.last().unwrap().files.iter().map(|f| f.len()).collect()
}

#[test]
fn leveled_store_starts_empty() {
    let store = KvStore::open().unwrap();
    assert_eq!(store.get(s("k")).unwrap(), None);
    assert_eq!(store.versions.last_sequence(), 0);
    assert_eq!(level_counts(&store), vec![0; 7]);
}

#[test]
fn leveled_get_after_set() {
    let mut store = KvStore::new();
    store.set(s("k"), s("v1")).unwrap();
    store.set(s("k"), s("v2")).unwrap();
    store.set(s("j"), s("w")).unwrap();
    assert_eq!(store.get(s("k")).unwrap(), Some(s("v2")));
    assert_eq!(store.get(s("j")).unwrap(), Some(s("w")));
    assert_eq!(store.get(s("i")).unwrap(), None);
    assert_eq!(store.versions.last_sequence(), 3);
}

#[test]
fn leveled_remove_writes_a_tombstone() {
    let mut store = KvStore::new();
    store.set(s("k"), s("v")).unwrap();
    store.remove(s("k")).unwrap();
    assert_eq!(store.get(s("k")).unwrap(), None);
    store.remove(s("never")).unwrap();
    assert_eq!(store.get(s("never")).unwrap(), None);
    store.set(s("k"), s("again")).unwrap();
    assert_eq!(store.get(s("k")).unwrap(), Some(s("again")));
}

#[test]
fn write_goes_to_both_logs_and_the_memtable() {
    let mut store = KvStore::new();
    store.write(Command::Put, s("k"), s("value")).unwrap();
    store.write(Command::Put, s("l"), s("\u{e9}")).unwrap();
    assert_eq!(
        store.log.as_slice(),
        "{\"cmd\":\"Set\",\"key\":\"k\",\"value\":\"value\"}\n{\"cmd\":\"Set\",\"key\":\"l\",\"value\":\"\u{e9}\"}\n".as_bytes()
    );
    assert_eq!(store.vlog_writer.as_slice(), "value\u{e9}".as_bytes());
    let items = store.mem.iter();
    assert_eq!(items.len(), 2);
    assert_eq!((items[0].0.user_key.as_str(), items[0].0.sequence_num, items[0].1, items[0].2), ("k", 1, 0, 5));
    assert_eq!((items[1].0.user_key.as_str(), items[1].0.sequence_num, items[1].1, items[1].2), ("l", 2, 5, 2));
}

#[test]
fn write_fails_where_no_sequence_number_is_left() {
    let mut store = KvStore::new();
    store.versions.set_last_sequence(MAX_SEQUENCE_NUM - 1);
    store.set(s("a"), s("1")).unwrap();
    assert_eq!(store.versions.last_sequence(), MAX_SEQUENCE_NUM);
    assert_eq!(store.set(s("b"), s("2")), Err(KVSError::Corrupt));
    assert_eq!(store.get(s("a")).unwrap(), Some(s("1")));
    assert_eq!(store.get(s("b")).unwrap(), None);
}

#[test]
fn making_room_without_need_changes_nothing() {
    let mut store = KvStore::new();
    store.set(s("k"), s("v")).unwrap();
    store.make_room_for_write(false).unwrap();
    assert_eq!(store.mem.iter().len(), 1);
    assert!(store.imm.is_none());
    assert_eq!(level_counts(&store), vec![0; 7]);
}

#[test]
fn forced_room_writes_the_memtable_out_as_a_table() {
    let mut store = KvStore::new();
    store.set(s("b"), s("2")).unwrap();
    store.set(s("a"), s("1")).unwrap();
    store.remove(s("b")).unwrap();
    store.make_room_for_write(true).unwrap();
    assert_eq!(store.mem.iter().len(), 0);
    assert_eq!(store.mem.size(), 0);
    assert!(store.imm.is_none());
    assert_eq!(store.log.as_slice().len(), 0);
    assert_eq!(level_counts(&store), vec![0, 0, 1, 0, 0, 0, 0]);
    let current = store.versions.versions.last().unwrap();
    let file = &current.files[2][0];
    assert_eq!(file.smallest_key.user_key, "a");
    assert_eq!(file.largest_key.user_key, "b");
    assert_eq!(file.largest_key.sequence_num, 1);
    let bytes = store.tables.get(&file.num).unwrap();
    assert_eq!(file.size, bytes.len() as u64);
    let entries = decode_table(bytes).unwrap();
    let got: Vec<(String, u64, i64)> =
        entries.iter().map(|e| (e.key.user_key.clone(), e.key.sequence_num, e.pos)).collect();
    assert_eq!(got, vec![(s("a"), 2, 1), (s("b"), 3, -1), (s("b"), 1, 0)]);
    assert_eq!(store.get(s("a")).unwrap(), Some(s("1")));
    assert_eq!(store.get(s("b")).unwrap(), None);
    assert_eq!(store.get(s("c")).unwrap(), None);
    assert_eq!(store.versions.journal.len(), 1);
    assert_eq!(store.versions.journal[0].prev_log_number, Some(0));
    assert_eq!(store.versions.journal[0].log_number, Some(store.log_file_number));
}

#[test]
fn newer_writes_shadow_what_the_tables_hold() {
    let mut store = KvStore::new();
    store.set(s("k"), s("old")).unwrap();
    store.set(s("gone"), s("x")).unwrap();
    store.make_room_for_write(true).unwrap();
    store.set(s("k"), s("new")).unwrap();
    store.remove(s("gone")).unwrap();
    assert_eq!(store.get(s("k")).unwrap(), Some(s("new")));
    assert_eq!(store.get(s("gone")).unwrap(), None);
    store.make_room_for_write(true).unwrap();
    assert_eq!(store.get(s("k")).unwrap(), Some(s("new")));
    assert_eq!(store.get(s("gone")).unwrap(), None);
    assert_eq!(level_counts(&store), vec![0, 1, 1, 0, 0, 0, 0]);
}

#[test]
fn an_empty_memtable_leaves_no_file() {
    let mut store = KvStore::new();
    store.make_room_for_write(true).unwrap();
    assert_eq!(level_counts(&store), vec![0; 7]);
    assert_eq!(store.versions.versions.len(), 2);
}

#[test]
fn level0_table_is_added_to_the_edit() {
    let mut store = KvStore::new();
    store.set(s("m"), s("1")).unwrap();
    store.set(s("c"), s("2")).unwrap();
    let sealed = std::mem::replace(&mut store.mem, kvs::engines::kv::memtable::MemTable::new().unwrap());
    store.imm = Some(sealed);
    let mut edit = VersionEdit::new();
    let number = store.versions.next_file_number;
    store.write_level0_table(&mut edit, false).unwrap();
    assert_eq!(edit.new_files.len(), 1);
    assert_eq!(edit.new_files[0].0, 0);
    assert_eq!(edit.new_files[0].1.num, number);
    assert_eq!(edit.new_files[0].1.smallest_key.user_key, "c");
    assert_eq!(edit.new_files[0].1.largest_key.user_key, "m");
    assert_eq!(edit.new_files[0].1.size, (2 * 34) as u64);
    assert!(store.tables.contains_key(&number));
    assert_eq!(store.versions.next_file_number, number + 1);
    assert_eq!(store.pending_outputs.len(), 0);
    assert!(store.imm.is_some());
    store.compact_memtable().unwrap();
    assert!(store.imm.is_none());
}

#[test]
fn background_compaction_merges_level_0_into_level_1() {
    let mut store = KvStore::new();
    let mut seen = Vec::new();
    for round in 0..6 {
        for i in 0..20 {
            store.set(format!("key{:02}", i), format!("value{}-{}", i, round)).unwrap();
        }
        store.remove(format!("key{:02}", round)).unwrap();
        store.make_room_for_write(true).unwrap();
        seen.push(level_counts(&store));
        store.background_compaction().unwrap();
        if round < 5 {
            assert_eq!(level_counts(&store), seen[round]);
        }
    }
    assert_eq!(seen[0], vec![0, 0, 1, 0, 0, 0, 0]);
    assert_eq!(seen[1], vec![0, 1, 1, 0, 0, 0, 0]);
    assert_eq!(seen[2], vec![1, 1, 1, 0, 0, 0, 0]);
    assert_eq!(seen[3], vec![2, 1, 1, 0, 0, 0, 0]);
    assert_eq!(seen[4], vec![3, 1, 1, 0, 0, 0, 0]);
    assert_eq!(seen[5], vec![4, 1, 1, 0, 0, 0, 0]);
    assert_eq!(level_counts(&store), vec![0, 1, 1, 0, 0, 0, 0]);
    assert_eq!(store.tables.len(), 2);
    let current = store.versions.versions.last().unwrap();
    let merged = decode_table(store.tables.get(&current.files[1][0].num).unwrap()).unwrap();
    assert_eq!(merged.len(), 20);
    assert_eq!(store.get(s("key05")).unwrap(), None);
    for i in 0..5 {
        assert_eq!(store.get(format!("key{:02}", i)).unwrap(), Some(format!("value{}-5", i)));
    }
    for i in 6..20 {
        assert_eq!(store.get(format!("key{:02}", i)).unwrap(), Some(format!("value{}-5", i)));
    }
    store.background_compaction().unwrap();
    assert_eq!(level_counts(&store), vec![0, 1, 1, 0, 0, 0, 0]);
}

#[test]
fn a_store_reads_back_many_keys_across_flushes() {
    let mut store = KvStore::new();
    for i in 0..300 {
        store.set(format!("k{}", i), format!("v{}", i)).unwrap();
        if i % 50 == 49 {
            store.make_room_for_write(true).unwrap();
        }
        if i % 7 == 0 {
            store.schedule_compaction().unwrap();
        }
    }
    for i in 0..300 {
        assert_eq!(store.get(format!("k{}", i)).unwrap(), Some(format!("v{}", i)));
    }
}

#[test]
fn entries_are_kept_in_key_order() {
    let mut list = Vec::new();
    for e in vec![entry("b", 1), entry("a", 2), entry("b", 5), entry("a", 9), entry("c", 0), entry("a", 2)] {
        insert_in_key_order(&mut list, e);
    }
    let got: Vec<(String, u64)> = list.iter().map(|e| (e.key.user_key.clone(), e.key.sequence_num)).collect();
    assert_eq!(got, vec![(s("a"), 9), (s("a"), 2), (s("a"), 2), (s("b"), 5), (s("b"), 1), (s("c"), 0)]);
}

#[test]
fn build_table_gives_bytes_and_metadata() {
    let entries = vec![entry("a", 9), entry("a", 2), entry("c", 0)];
    let (bytes, meta) = build_table(&entries, 17).unwrap();
    let meta = meta.unwrap();
    assert_eq!(meta.num, 17);
    assert_eq!(meta.size, bytes.len() as u64);
    assert_eq!(meta.size, 3 * 34);
    assert_eq!(meta.refs, 0);
    assert!(meta.smallest_key == entries[0].key);
    assert!(meta.largest_key == entries[2].key);
    assert_eq!(decode_table(&bytes).unwrap().len(), 3);
    let (bytes, meta) = build_table(&Vec::new(), 18).unwrap();
    assert!(bytes.is_empty());
    assert!(meta.is_none());
    let items = vec![(InternalKey::new(&s("k"), 3, Command::Remove), -1i64, 0usize)];
    let converted = memtable_entries(&items);
    assert_eq!(converted.len(), 1);
    assert!(converted[0].key == items[0].0);
    assert_eq!(converted[0].pos, -1);
}

#[test]
fn a_table_written_from_a_memtable_answers_as_the_memtable() {
    let mut mem = MemTable::new().unwrap();
    let keys = vec!["a", "b", "bb", "c", "k"];
    let mut seq = 0;
    for round in 0..4u64 {
        for (i, k) in keys.iter().enumerate() {
            seq += 1;
            let command = if (round + i as u64) % 3 == 0 { Command::Remove } else { Command::Put };
            mem.insert(InternalKey::new(&s(k), seq, command), seq * 10, i).unwrap();
        }
    }
    let (bytes, meta) = build_table(&memtable_entries(&mem.iter()), 1).unwrap();
    assert!(meta.is_some());
    for k in vec!["", "a", "ab", "b", "bb", "bbb", "c", "d", "k", "z"] {
        for bound in 0..=(seq + 1) {
            let key = InternalKey::new(&s(k), bound, Command::Seek);
            assert_eq!(lookup_in_table(&bytes, &key).unwrap(), mem.get(&key).unwrap(), "{} {}", k, bound);
        }
    }
}
