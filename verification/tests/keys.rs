use kvs::engines::kv::codec::Command;
use kvs::engines::kv::key::{bytes_less, user_key_at_most, user_key_less, InternalKey, MAX_SEQUENCE_NUM};
use kvs::engines::kv::lsm::{make_file_name, CompactionScheduler, DBIterator};
use kvs::engines::kv::memtable::{MemTable, TOMBSTONE};
use kvs::engines::kv::options::{
    Options, COMPACT_MEMTABLE_THRESHOLD, L0_COMPACTION_TRIGGER, L0_STOP_WRITES_TRIGGER,
    MAX_MEM_COMPACT_LEVEL, NUM_LEVELS,
};
use kvs::engines::kv::table::{
    decode_table, encode_entry, encode_table, lookup_in_table, seek_entry, Entry,
};
use kvs::KVSError;
use std::cmp::Ordering;

fn key(user_key: &str, seq: u64, command: Command) -> InternalKey {
    InternalKey::new(&user_key.to_string(), seq, command)
}

fn entry(user_key: &str, seq: u64, command: Command, pos: i64, len: usize) -> Entry {
    Entry { key: key(user_key, seq, command), pos, len }
}

#[test]
fn constants() {
    assert_eq!(MAX_SEQUENCE_NUM, (1u64 << 56) - 1);
    assert_eq!(NUM_LEVELS, 7);
    assert_eq!(MAX_MEM_COMPACT_LEVEL, 2);
    assert_eq!(L0_COMPACTION_TRIGGER, 4);
    assert_eq!(L0_STOP_WRITES_TRIGGER, 12);
    assert_eq!(COMPACT_MEMTABLE_THRESHOLD, 1024 * 1024);
}

#[test]
fn default_options() {
    let o = Options::default();
    assert_eq!(o.max_file_size, 2 * 1024 * 1024);
    assert_eq!(o.write_buffer_size, 4 * 1024 * 1024);
    assert_eq!(o.max_open_files, 1000);
    assert_eq!(o.block_size, 4 * 1024);
    assert_eq!(o.block_restart_interval, 16);
}

#[test]
fn file_names() {
    assert_eq!(make_file_name(12, "dbt"), "12.dbt");
    assert_eq!(make_file_name(0, "log"), "0.log");
    assert_eq!(make_file_name(u64::MAX, ""), "18446744073709551615.");
}

#[test]
fn scheduler_lets_one_compaction_run() {
    let mut s = CompactionScheduler::new();
    assert!(s.maybe_schedule_compaction());
    assert!(!s.maybe_schedule_compaction());
    s.finish();
    assert!(s.maybe_schedule_compaction());
}

#[test]
fn bytes_are_ordered_lexicographically() {
    assert!(bytes_less(b"", b"a"));
    assert!(!bytes_less(b"", b""));
    assert!(!bytes_less(b"a", b""));
    assert!(bytes_less(b"a", b"b"));
    assert!(bytes_less(b"a", b"aa"));
    assert!(bytes_less(b"ab", b"b"));
    assert!(!bytes_less(b"b", b"ab"));
    assert!(!bytes_less(b"abc", b"abc"));
    assert!(bytes_less(b"\x7f", b"\x80"));
}

#[test]
fn user_keys_are_ordered_as_strings_are() {
    let keys = vec!["", "a", "aa", "ab", "b", "key1", "key10", "key2", "\u{e9}", "\u{4e2d}", "\u{1f600}"];
    for a in keys.iter() {
        for b in keys.iter() {
            assert_eq!(user_key_less(a, b), a < b, "{:?} {:?}", a, b);
            assert_eq!(user_key_at_most(a, b), a <= b, "{:?} {:?}", a, b);
        }
    }
}

#[test]
fn internal_key_new_keeps_its_parts() {
    let k = key("user", 7, Command::Remove);
    assert_eq!(k.user_key, "user");
    assert_eq!(k.sequence_num, 7);
    assert_eq!(k.command, Command::Remove);
    let c = k.clone();
    assert!(c == k);
}

#[test]
fn newer_entries_of_a_user_key_sort_first() {
    let newer = key("k", 9, Command::Put);
    let older = key("k", 3, Command::Put);
    assert!(newer.precedes(&older));
    assert!(!older.precedes(&newer));
    assert!(newer < older);
    assert_eq!(newer.partial_cmp(&older), Some(Ordering::Less));
    assert_eq!(older.partial_cmp(&newer), Some(Ordering::Greater));
}

#[test]
fn user_key_decides_before_the_sequence_number() {
    let a = key("a", 1, Command::Put);
    let b = key("b", 100, Command::Put);
    assert!(a.precedes(&b));
    assert!(!b.precedes(&a));
    assert_eq!(a.partial_cmp(&b), Some(Ordering::Less));
    assert_eq!(b.partial_cmp(&a), Some(Ordering::Greater));
}

#[test]
fn the_command_takes_no_part_in_the_order() {
    let a = key("k", 5, Command::Put);
    let b = key("k", 5, Command::Remove);
    assert!(!a.precedes(&b));
    assert!(!b.precedes(&a));
    assert!(a.same_place(&b));
    assert_eq!(a.partial_cmp(&b), Some(Ordering::Equal));
    assert!(a != b);
    assert!(a == key("k", 5, Command::Put));
}

#[test]
fn seek_key_with_the_maximum_sequence_sorts_before_every_entry_of_its_user_key() {
    let seek = key("k", MAX_SEQUENCE_NUM, Command::Seek);
    assert!(seek.precedes(&key("k", 10, Command::Put)));
    assert!(seek.precedes(&key("l", MAX_SEQUENCE_NUM, Command::Put)));
    assert!(key("j", 0, Command::Put).precedes(&seek));
}

#[test]
fn memtable_starts_empty() {
    let m = MemTable::new().unwrap();
    assert_eq!(m.size(), 0);
    assert_eq!(m.iter().len(), 0);
    assert_eq!(m.get(&key("k", MAX_SEQUENCE_NUM, Command::Seek)).unwrap(), None);
}

#[test]
fn memtable_get_sees_the_newest_entry_up_to_the_bound() {
    let mut m = MemTable::new().unwrap();
    m.insert(key("k", 1, Command::Put), 100, 10).unwrap();
    m.insert(key("k", 5, Command::Put), 200, 20).unwrap();
    m.insert(key("k", 9, Command::Put), 300, 30).unwrap();
    m.insert(key("j", 7, Command::Put), 400, 40).unwrap();
    m.insert(key("l", 2, Command::Put), 500, 50).unwrap();
    assert_eq!(m.get(&key("k", MAX_SEQUENCE_NUM, Command::Seek)).unwrap(), Some((300, 30)));
    assert_eq!(m.get(&key("k", 9, Command::Seek)).unwrap(), Some((300, 30)));
    assert_eq!(m.get(&key("k", 8, Command::Seek)).unwrap(), Some((200, 20)));
    assert_eq!(m.get(&key("k", 5, Command::Seek)).unwrap(), Some((200, 20)));
    assert_eq!(m.get(&key("k", 4, Command::Seek)).unwrap(), Some((100, 10)));
    assert_eq!(m.get(&key("k", 1, Command::Seek)).unwrap(), Some((100, 10)));
    assert_eq!(m.get(&key("k", 0, Command::Seek)).unwrap(), None);
    assert_eq!(m.get(&key("j", 6, Command::Seek)).unwrap(), None);
    assert_eq!(m.get(&key("j", 7, Command::Seek)).unwrap(), Some((400, 40)));
    assert_eq!(m.get(&key("l", 1, Command::Seek)).unwrap(), None);
    assert_eq!(m.get(&key("kk", MAX_SEQUENCE_NUM, Command::Seek)).unwrap(), None);
    assert_eq!(m.get(&key("", MAX_SEQUENCE_NUM, Command::Seek)).unwrap(), None);
    assert_eq!(m.get(&key("z", MAX_SEQUENCE_NUM, Command::Seek)).unwrap(), None);
}

#[test]
fn memtable_stores_a_remove_as_a_tombstone() {
    let mut m = MemTable::new().unwrap();
    m.insert(key("k", 1, Command::Put), 100, 10).unwrap();
    m.insert(key("k", 2, Command::Remove), 110, 0).unwrap();
    assert_eq!(TOMBSTONE, -1);
    assert_eq!(m.get(&key("k", MAX_SEQUENCE_NUM, Command::Seek)).unwrap(), Some((-1, 0)));
    assert_eq!(m.get(&key("k", 1, Command::Seek)).unwrap(), Some((100, 10)));
}

#[test]
fn memtable_insert_replaces_the_entry_of_the_same_place() {
    let mut m = MemTable::new().unwrap();
    m.insert(key("k", 1, Command::Put), 100, 10).unwrap();
    m.insert(key("k", 1, Command::Put), 200, 20).unwrap();
    assert_eq!(m.get(&key("k", 1, Command::Seek)).unwrap(), Some((200, 20)));
    assert_eq!(m.iter().len(), 1);
}

#[test]
fn memtable_rejects_a_place_that_does_not_fit() {
    let mut m = MemTable::new().unwrap();
    assert_eq!(m.insert(key("k", 1, Command::Put), i64::MAX as u64 + 1, 1), Err(KVSError::Corrupt));
    assert_eq!(m.size(), 0);
    assert_eq!(m.iter().len(), 0);
    m.insert(key("k", 1, Command::Put), i64::MAX as u64, 1).unwrap();
    assert_eq!(m.get(&key("k", 1, Command::Seek)).unwrap(), Some((i64::MAX, 1)));
}

#[test]
fn memtable_size_counts_key_bytes_and_three_words() {
    let mut m = MemTable::new().unwrap();
    m.insert(key("abc", 1, Command::Put), 0, 0).unwrap();
    assert_eq!(m.size(), 27);
    m.insert(key("\u{e9}", 2, Command::Put), 0, 0).unwrap();
    assert_eq!(m.size(), 27 + 26);
    m.insert(key("abc", 1, Command::Put), 5, 5).unwrap();
    assert_eq!(m.size(), 27 + 26 + 27);
    m.insert(key("", 3, Command::Remove), 5, 5).unwrap();
    assert_eq!(m.size(), 27 + 26 + 27 + 24);
}

#[test]
fn memtable_iter_is_in_key_order() {
    let mut m = MemTable::new().unwrap();
    m.insert(key("b", 1, Command::Put), 1, 1).unwrap();
    m.insert(key("a", 2, Command::Put), 2, 2).unwrap();
    m.insert(key("b", 3, Command::Remove), 3, 3).unwrap();
    m.insert(key("a", 4, Command::Put), 4, 4).unwrap();
    m.insert(key("c", 0, Command::Put), 5, 5).unwrap();
    let items = m.iter();
    let got: Vec<(String, u64, Command, i64, usize)> = items
        .iter()
        .map(|(k, pos, len)| (k.user_key.clone(), k.sequence_num, k.command, *pos, *len))
        .collect();
    assert_eq!(
        got,
        vec![
            ("a".to_string(), 4, Command::Put, 4, 4),
            ("a".to_string(), 2, Command::Put, 2, 2),
            ("b".to_string(), 3, Command::Remove, -1, 3),
            ("b".to_string(), 1, Command::Put, 1, 1),
            ("c".to_string(), 0, Command::Put, 5, 5),
        ]
    );
    for w in items.windows(2) {
        assert!(w[0].0.precedes(&w[1].0));
    }
}

#[test]
fn memtable_keeps_extreme_sequence_numbers_apart() {
    let mut m = MemTable::new().unwrap();
    m.insert(key("k", 0, Command::Put), 1, 1).unwrap();
    m.insert(key("k", u64::MAX, Command::Put), 2, 2).unwrap();
    assert_eq!(m.get(&key("k", u64::MAX, Command::Seek)).unwrap(), Some((2, 2)));
    assert_eq!(m.get(&key("k", u64::MAX - 1, Command::Seek)).unwrap(), Some((1, 1)));
    let items = m.iter();
    assert_eq!(items[0].0.sequence_num, u64::MAX);
    assert_eq!(items[1].0.sequence_num, 0);
}

#[test]
fn entry_frame_layout() {
    let mut out = Vec::new();
    encode_entry(&mut out, &entry("ab", 0x0102, Command::Remove, 7, 3)).unwrap();
    let mut expected = Vec::new();
    expected.extend_from_slice(&11u64.to_le_bytes());
    expected.extend_from_slice(b"ab");
    expected.extend_from_slice(&0x0102u64.to_le_bytes());
    expected.push(1);
    expected.extend_from_slice(&7i64.to_le_bytes());
    expected.extend_from_slice(&3u64.to_le_bytes());
    assert_eq!(out, expected);
    assert_eq!(out.len(), 2 + 33);
}

#[test]
fn entry_frame_of_a_tombstone() {
    let mut out = vec![9u8];
    encode_entry(&mut out, &entry("", 1, Command::Put, -1, 0)).unwrap();
    let mut expected = vec![9u8];
    expected.extend_from_slice(&9u64.to_le_bytes());
    expected.extend_from_slice(&1u64.to_le_bytes());
    expected.push(0);
    expected.extend_from_slice(&(-1i64).to_le_bytes());
    expected.extend_from_slice(&0u64.to_le_bytes());
    assert_eq!(out, expected);
}

#[test]
fn table_round_trip() {
    let entries = vec![
        entry("a", 4, Command::Put, 0, 5),
        entry("a", 2, Command::Put, i64::MAX, usize::MAX),
        entry("b", 3, Command::Remove, -1, 0),
        entry("\u{e9}\u{1f600}", u64::MAX, Command::Seek, i64::MIN, 1),
        entry("", 0, Command::Put, -2, 2),
    ];
    let bytes = encode_table(&entries).unwrap();
    let back = decode_table(&bytes).unwrap();
    assert_eq!(back.len(), entries.len());
    for (a, b) in back.iter().zip(entries.iter()) {
        assert!(a.key == b.key);
        assert_eq!(a.pos, b.pos);
        assert_eq!(a.len, b.len);
    }
    assert_eq!(decode_table(&[]).unwrap().len(), 0);
    assert_eq!(encode_table(&Vec::new()).unwrap().len(), 0);
}

#[test]
fn decode_table_rejects_bytes_that_are_no_table() {
    let good = encode_table(&vec![entry("abc", 1, Command::Put, 2, 3)]).unwrap();
    assert!(decode_table(&good).is_ok());
    for cut in 1..good.len() {
        assert!(matches!(decode_table(&good[..cut]), Err(KVSError::Corrupt)), "cut {}", cut);
    }
    let mut extra = good.clone();
    extra.push(0);
    assert!(matches!(decode_table(&extra), Err(KVSError::Corrupt)));
    let mut bad_tag = good.clone();
    bad_tag[8 + 3 + 8] = 3;
    assert!(matches!(decode_table(&bad_tag), Err(KVSError::Corrupt)));
    let mut bad_utf8 = good.clone();
    bad_utf8[8] = 0xff;
    assert!(matches!(decode_table(&bad_utf8), Err(KVSError::Corrupt)));
    let mut short_key = good.clone();
    short_key[0] = 8;
    assert!(matches!(decode_table(&short_key), Err(KVSError::Corrupt)));
    let mut long_key = good;
    long_key[7] = 0xff;
    assert!(matches!(decode_table(&long_key), Err(KVSError::Corrupt)));
}

#[test]
fn seek_finds_the_newest_entry_up_to_the_key() {
    let entries = vec![
        entry("a", 4, Command::Put, 40, 4),
        entry("a", 2, Command::Put, 20, 2),
        entry("c", 9, Command::Remove, -1, 0),
        entry("c", 3, Command::Put, 30, 3),
    ];
    assert_eq!(seek_entry(&entries, &key("a", MAX_SEQUENCE_NUM, Command::Seek)), Some((40, 4)));
    assert_eq!(seek_entry(&entries, &key("a", 3, Command::Seek)), Some((20, 2)));
    assert_eq!(seek_entry(&entries, &key("a", 1, Command::Seek)), None);
    assert_eq!(seek_entry(&entries, &key("b", MAX_SEQUENCE_NUM, Command::Seek)), None);
    assert_eq!(seek_entry(&entries, &key("c", MAX_SEQUENCE_NUM, Command::Seek)), Some((-1, 0)));
    assert_eq!(seek_entry(&entries, &key("c", 8, Command::Seek)), Some((30, 3)));
    assert_eq!(seek_entry(&entries, &key("d", MAX_SEQUENCE_NUM, Command::Seek)), None);
    assert_eq!(seek_entry(&Vec::new(), &key("a", 1, Command::Seek)), None);
    let bytes = encode_table(&entries).unwrap();
    assert_eq!(lookup_in_table(&bytes, &key("c", 8, Command::Seek)), Ok(Some((30, 3))));
    assert_eq!(lookup_in_table(&bytes, &key("b", 8, Command::Seek)), Ok(None));
    assert_eq!(lookup_in_table(&bytes[..10], &key("c", 8, Command::Seek)), Err(KVSError::Corrupt));
}

#[test]
fn db_iterator_walks_the_entries() {
    let mut it = DBIterator::new(vec![
        entry("a", 1, Command::Put, 1, 1),
        entry("b", 2, Command::Put, 2, 2),
    ]);
    let first = it.next().unwrap();
    assert_eq!(first.key.user_key, "a");
    let second = it.next().unwrap();
    assert_eq!(second.key.user_key, "b");
    assert!(it.next().is_none());
    assert!(it.next().is_none());
}
