use kvs::engines::kv::codec::Command;
use kvs::engines::kv::compaction::Compaction;
use kvs::engines::kv::key::InternalKey;
use kvs::engines::kv::table::Entry;
use kvs::engines::kv::version::{FileMetaData, Version};

fn key(user_key: &str, seq: u64) -> InternalKey {
    InternalKey::new(&user_key.to_string(), seq, Command::Put)
}

fn file(num: u64, size: u64, smallest: &str, largest: &str) -> FileMetaData {
    FileMetaData {
        num,
        size,
        refs: 0,
        smallest_key: key(smallest, 100),
        largest_key: key(largest, 1),
    }
}

fn entry(user_key: &str, seq: u64, command: Command) -> Entry {
    Entry { key: InternalKey::new(&user_key.to_string(), seq, command), pos: seq as i64, len: 1 }
}

fn version_with(levels: Vec<Vec<FileMetaData>>) -> Version {
    let mut v = Version::new();
    for (l, files) in levels.into_iter().enumerate() {
        v.files[l] = files;
    }
    v
}

fn shape(tables: &Vec<Vec<Entry>>) -> Vec<Vec<(String, u64)>> {
    tables
        .iter()
        .map(|t| t.iter().map(|e| (e.key.user_key.clone(), e.key.sequence_num)).collect())
        .collect()
}

fn p(user_key: &str, seq: u64) -> (String, u64) {
    (user_key.to_string(), seq)
}

const LIMIT: u64 = 20 * 1024 * 1024;

#[test]
fn new_compaction_has_no_inputs() {
    let c = Compaction::new(3);
    assert_eq!(c.level, 3);
    assert_eq!(c.inputs.len(), 3);
    assert_eq!(c.num_input_Files(0), Ok(0));
    assert_eq!(c.num_input_Files(1), Ok(0));
    assert_eq!(c.num_input_Files(2), Ok(0));
    assert_eq!(c.max_output_file_size(), 2 * 1024 * 1024);
    assert_eq!(c.grandparent_idx, 0);
    assert_eq!(c.overlapped_bytes, 0);
    assert!(!c.seen_key);
    assert!(c.version.is_none());
    assert!(!c.is_trivial_move());
}

#[test]
fn trivial_move_needs_one_input_no_parent_and_light_grandparents() {
    let mut c = Compaction::new(1);
    c.inputs[0] = vec![file(1, 10, "a", "b")];
    assert!(c.is_trivial_move());
    c.inputs[2] = vec![file(2, LIMIT - 1, "a", "b"), file(3, 1, "c", "d")];
    assert!(c.is_trivial_move());
    c.inputs[2].push(file(4, 1, "e", "f"));
    assert!(!c.is_trivial_move());
    c.inputs[2] = Vec::new();
    c.inputs[1] = vec![file(5, 1, "a", "b")];
    assert!(!c.is_trivial_move());
    c.inputs[1] = Vec::new();
    c.inputs[0].push(file(6, 1, "c", "d"));
    assert!(!c.is_trivial_move());
}

#[test]
fn input_deletions_name_the_files_of_both_levels() {
    let mut c = Compaction::new(2);
    c.inputs[0] = vec![file(1, 1, "a", "b"), file(2, 1, "c", "d")];
    c.inputs[1] = vec![file(3, 1, "a", "d")];
    c.inputs[2] = vec![file(4, 1, "a", "z")];
    c.edit.remove_file(5, 9);
    c.add_input_deletions();
    assert!(c.edit.deletes(2, 1));
    assert!(c.edit.deletes(2, 2));
    assert!(c.edit.deletes(3, 3));
    assert!(c.edit.deletes(5, 9));
    assert!(!c.edit.deletes(2, 3));
    assert!(!c.edit.deletes(3, 1));
    assert!(!c.edit.deletes(4, 4));
    assert!(!c.edit.deletes(2, 4));
    assert_eq!(c.edit.new_files.len(), 0);
}

#[test]
fn base_level_for_key_looks_from_the_grandparents_down() {
    let v = version_with(vec![
        vec![file(1, 1, "a", "z")],
        vec![file(2, 1, "a", "z")],
        vec![file(3, 1, "a", "z")],
        vec![file(4, 1, "c", "e")],
        vec![],
        vec![file(5, 1, "k", "m"), file(6, 1, "p", "p")],
    ]);
    let mut c = Compaction::new(1);
    c.version = Some(v);
    assert!(c.is_base_level_for_key(&"a".to_string()));
    assert!(c.is_base_level_for_key(&"b".to_string()));
    assert!(!c.is_base_level_for_key(&"c".to_string()));
    assert!(!c.is_base_level_for_key(&"d".to_string()));
    assert!(!c.is_base_level_for_key(&"e".to_string()));
    assert!(c.is_base_level_for_key(&"f".to_string()));
    assert!(!c.is_base_level_for_key(&"k".to_string()));
    assert!(!c.is_base_level_for_key(&"m".to_string()));
    assert!(c.is_base_level_for_key(&"n".to_string()));
    assert!(!c.is_base_level_for_key(&"p".to_string()));
    assert!(c.is_base_level_for_key(&"q".to_string()));
    c.level = 0;
    assert!(!c.is_base_level_for_key(&"b".to_string()));
    c.level = 4;
    assert!(c.is_base_level_for_key(&"k".to_string()));
    c.level = 3;
    assert!(!c.is_base_level_for_key(&"k".to_string()));
    assert!(c.is_base_level_for_key(&"d".to_string()));
    c.level = 5;
    assert!(c.is_base_level_for_key(&"k".to_string()));
    c.release_version();
    assert!(c.version.is_none());
}

#[test]
fn should_stop_before_counts_the_grandparents_that_were_passed() {
    let mut c = Compaction::new(0);
    c.inputs[2] = vec![
        file(1, LIMIT, "a", "b"),
        file(2, 1, "c", "d"),
        file(3, LIMIT, "e", "f"),
        file(4, 5, "g", "h"),
    ];
    assert!(!c.should_stop_before(&key("a", 50)));
    assert!(c.seen_key);
    assert_eq!(c.grandparent_idx, 0);
    assert_eq!(c.overlapped_bytes, 0);
    assert!(!c.should_stop_before(&key("b", 1)));
    assert_eq!(c.grandparent_idx, 0);
    assert!(!c.should_stop_before(&key("b", 0)));
    assert_eq!(c.grandparent_idx, 1);
    assert_eq!(c.overlapped_bytes, LIMIT as u128);
    assert!(c.should_stop_before(&key("e", 50)));
    assert_eq!(c.grandparent_idx, 2);
    assert_eq!(c.overlapped_bytes, 0);
    assert!(!c.should_stop_before(&key("e", 50)));
    assert!(c.should_stop_before(&key("z", 50)));
    assert_eq!(c.grandparent_idx, 4);
    assert_eq!(c.overlapped_bytes, 0);
    assert!(!c.should_stop_before(&key("zz", 50)));
    assert_eq!(c.grandparent_idx, 4);
}

#[test]
fn should_stop_before_without_grandparents() {
    let mut c = Compaction::new(0);
    assert!(!c.should_stop_before(&key("a", 1)));
    assert!(!c.should_stop_before(&key("z", 1)));
    assert_eq!(c.grandparent_idx, 0);
}

#[test]
fn merge_drops_superseded_entries_and_removes_at_the_base_level() {
    let mut c = Compaction::new(1);
    c.version = Some(version_with(vec![vec![], vec![], vec![], vec![file(9, 1, "c", "c")]]));
    let entries = vec![
        entry("a", 9, Command::Put),
        entry("a", 5, Command::Put),
        entry("a", 2, Command::Remove),
        entry("b", 7, Command::Remove),
        entry("b", 3, Command::Put),
        entry("c", 8, Command::Remove),
        entry("c", 4, Command::Put),
        entry("d", 6, Command::Put),
    ];
    let out = c.merge_entries(&entries, 100);
    assert_eq!(shape(&out), vec![vec![p("a", 9), p("c", 8), p("d", 6)]]);
}

#[test]
fn merge_keeps_what_is_above_the_smallest_snapshot() {
    let mut c = Compaction::new(1);
    c.version = Some(Version::new());
    let entries = vec![
        entry("a", 9, Command::Put),
        entry("a", 5, Command::Put),
        entry("a", 2, Command::Put),
        entry("b", 7, Command::Remove),
        entry("b", 3, Command::Remove),
    ];
    let out = c.merge_entries(&entries, 4);
    assert_eq!(shape(&out), vec![vec![p("a", 9), p("a", 5), p("b", 7)]]);
    let mut c = Compaction::new(1);
    c.version = Some(Version::new());
    let out = c.merge_entries(&entries, 0);
    assert_eq!(shape(&out), vec![vec![p("a", 9), p("a", 5), p("a", 2), p("b", 7), p("b", 3)]]);
}

#[test]
fn merge_of_nothing_gives_no_table() {
    let mut c = Compaction::new(1);
    c.version = Some(Version::new());
    assert_eq!(c.merge_entries(&Vec::new(), 100).len(), 0);
    let out = c.merge_entries(&vec![entry("a", 1, Command::Remove)], 100);
    assert_eq!(out.len(), 0);
}

#[test]
fn merge_closes_a_table_that_has_reached_its_size() {
    let mut c = Compaction::new(1);
    c.version = Some(Version::new());
    c.max_output_file_size = 70;
    let entries = vec![
        entry("a", 1, Command::Put),
        entry("b", 1, Command::Put),
        entry("c", 1, Command::Put),
        entry("d", 1, Command::Put),
        entry("e", 1, Command::Put),
    ];
    let out = c.merge_entries(&entries, 100);
    assert_eq!(
        shape(&out),
        vec![
            vec![p("a", 1), p("b", 1), p("c", 1)],
            vec![p("d", 1), p("e", 1)],
        ]
    );
    let mut c = Compaction::new(1);
    c.version = Some(Version::new());
    c.max_output_file_size = 0;
    let out = c.merge_entries(&entries, 100);
    assert_eq!(out.len(), 5);
}

#[test]
fn merge_closes_a_table_that_overlaps_too_many_grandparent_bytes() {
    let mut c = Compaction::new(1);
    c.version = Some(Version::new());
    c.inputs[2] = vec![file(1, LIMIT + 1, "b", "c"), file(2, LIMIT + 1, "e", "e")];
    let entries = vec![
        entry("a", 1, Command::Put),
        entry("d", 1, Command::Put),
        entry("dd", 1, Command::Put),
        entry("f", 1, Command::Put),
        entry("g", 1, Command::Put),
    ];
    let out = c.merge_entries(&entries, 100);
    assert_eq!(
        shape(&out),
        vec![vec![p("a", 1)], vec![p("d", 1), p("dd", 1)], vec![p("f", 1), p("g", 1)]]
    );
    assert_eq!(c.grandparent_idx, 2);
}
