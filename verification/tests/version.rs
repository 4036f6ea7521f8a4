use kvs::engines::kv::codec::Command;
use kvs::engines::kv::key::{InternalKey, MAX_SEQUENCE_NUM};
use kvs::engines::kv::search::Tables;
use kvs::engines::kv::table::{encode_table, Entry};
use kvs::engines::kv::version::{
    clone_files, find_file, is_disjoint_ascending, max_bytes_for_level,
    max_grandparent_overlap_bytes, merge_level, range_of, score_greater, total_file_size,
    FileMetaData, Score, Version, VersionEdit, VersionSet,
};
use kvs::engines::kv::options::Options;
use kvs::KVSError;
use std::cmp::Ordering;

fn key(user_key: &str, seq: u64) -> InternalKey {
    InternalKey::new(&user_key.to_string(), seq, Command::Put)
}

fn seek(user_key: &str) -> InternalKey {
    InternalKey::new(&user_key.to_string(), MAX_SEQUENCE_NUM, Command::Seek)
}

fn file(num: u64, size: u64, smallest: &str, largest: &str) -> FileMetaData {
    FileMetaData {
        num,
        size,
        refs: 0,
        smallest_key: key(smallest, 100),
        largest_key: key(largest, 1),
    }
}

fn nums(files: &Vec<FileMetaData>) -> Vec<u64> {
    files.iter().map(|f| f.num).collect()
}

fn s(text: &str) -> String {
    text.to_string()
}

fn version_with(levels: Vec<Vec<FileMetaData>>) -> Version {
    let mut v = Version::new();
    for (l, files) in levels.into_iter().enumerate() {
        v.files[l] = files;
    }
    v
}

#[test]
fn total_file_size_is_the_sum() {
    assert_eq!(total_file_size(&Vec::new()), 0);
    let files = vec![file(1, 10, "a", "b"), file(2, 32, "c", "d"), file(3, u64::MAX, "e", "f")];
    assert_eq!(total_file_size(&files), 42 + u64::MAX as u128);
}

#[test]
fn grandparent_limit_is_ten_times_the_file_size() {
    assert_eq!(max_grandparent_overlap_bytes(Options::default()), 20 * 1024 * 1024);
    let mut o = Options::default();
    o.max_file_size = 7;
    assert_eq!(max_grandparent_overlap_bytes(o), 70);
    o.max_file_size = usize::MAX;
    assert_eq!(max_grandparent_overlap_bytes(o), usize::MAX as u128 * 10);
}

#[test]
fn level_capacities() {
    assert_eq!(max_bytes_for_level(1), 10 * 1048576);
    assert_eq!(max_bytes_for_level(2), 100 * 1048576);
    assert_eq!(max_bytes_for_level(3), 1000 * 1048576);
    assert_eq!(max_bytes_for_level(6), 1_000_000 * 1048576);
    assert_eq!(max_bytes_for_level(0), 10 * 1048576);
    assert_eq!(max_bytes_for_level(-5), 10 * 1048576);
    assert_eq!(max_bytes_for_level(13), 10_000_000_000_000 * 1048576);
    assert_eq!(max_bytes_for_level(14), u64::MAX);
    assert_eq!(max_bytes_for_level(i32::MAX.min(40)), u64::MAX);
}

#[test]
fn scores_compare_as_fractions() {
    let a = Score { amount: 3, limit: 4 };
    let b = Score { amount: 2, limit: 3 };
    assert!(score_greater(a, b));
    assert!(!score_greater(b, a));
    assert!(!score_greater(a, a));
    assert!(!score_greater(Score { amount: 1, limit: 2 }, Score { amount: 2, limit: 4 }));
    assert!(score_greater(Score { amount: 9, limit: 4 }, Score { amount: 2, limit: 1 }));
    assert!(score_greater(
        Score { amount: u128::MAX, limit: u64::MAX },
        Score { amount: u128::MAX - 1, limit: u64::MAX }
    ));
    assert!(score_greater(
        Score { amount: u128::MAX, limit: u64::MAX - 1 },
        Score { amount: u128::MAX, limit: u64::MAX }
    ));
    assert!(!score_greater(Score { amount: 0, limit: 1 }, Score { amount: 0, limit: 9 }));
}

#[test]
fn files_compare_by_smallest_key_then_number() {
    let a = file(1, 0, "a", "b");
    let b = file(2, 0, "c", "d");
    assert_eq!(a.cmp_by_smallest(&b), Some(Ordering::Less));
    assert_eq!(b.cmp_by_smallest(&a), Some(Ordering::Greater));
    assert!(a.sorts_before(&b));
    assert!(!b.sorts_before(&a));
    let c = file(3, 0, "a", "z");
    assert_eq!(a.cmp_by_smallest(&c), Some(Ordering::Less));
    assert_eq!(c.cmp_by_smallest(&a), Some(Ordering::Greater));
    assert_eq!(a.cmp_by_smallest(&a), Some(Ordering::Equal));
    assert!(!a.sorts_before(&a));
    let mut newer = file(0, 0, "a", "b");
    newer.smallest_key = key("a", 101);
    assert_eq!(newer.cmp_by_smallest(&a), Some(Ordering::Less));
}

#[test]
fn find_file_gives_the_first_file_that_does_not_end_before_the_key() {
    let files = vec![file(1, 0, "b", "d"), file(2, 0, "f", "h"), file(3, 0, "j", "l")];
    assert_eq!(find_file(&files, &seek("a")), 0);
    assert_eq!(find_file(&files, &seek("b")), 0);
    assert_eq!(find_file(&files, &seek("d")), 0);
    assert_eq!(find_file(&files, &key("d", 1)), 0);
    assert_eq!(find_file(&files, &key("d", 0)), 1);
    assert_eq!(find_file(&files, &seek("e")), 1);
    assert_eq!(find_file(&files, &seek("h")), 1);
    assert_eq!(find_file(&files, &seek("i")), 2);
    assert_eq!(find_file(&files, &seek("l")), 2);
    assert_eq!(find_file(&files, &seek("m")), 3);
    assert_eq!(find_file(&Vec::new(), &seek("a")), 0);
}

#[test]
fn disjoint_ascending_check() {
    assert!(is_disjoint_ascending(&Vec::new()));
    assert!(is_disjoint_ascending(&vec![file(1, 0, "a", "b")]));
    assert!(is_disjoint_ascending(&vec![file(1, 0, "a", "b"), file(2, 0, "c", "d")]));
    assert!(!is_disjoint_ascending(&vec![file(1, 0, "a", "c"), file(2, 0, "b", "d")]));
    assert!(!is_disjoint_ascending(&vec![file(2, 0, "c", "d"), file(1, 0, "a", "b")]));
    assert!(!is_disjoint_ascending(&vec![file(1, 0, "b", "a")]));
    assert!(is_disjoint_ascending(&vec![file(1, 0, "a", "a")]));
}

#[test]
fn overlap_at_level_0_looks_at_every_file() {
    let v = version_with(vec![vec![file(1, 0, "m", "p"), file(2, 0, "a", "c"), file(3, 0, "b", "n")]]);
    assert!(v.overlap_in_level(0, &s("a"), &s("a")));
    assert!(v.overlap_in_level(0, &s("d"), &s("e")));
    assert!(v.overlap_in_level(0, &s("p"), &s("z")));
    assert!(!v.overlap_in_level(0, &s("q"), &s("z")));
    assert!(!v.overlap_in_level(0, &s(""), &s("")));
    let empty = Version::new();
    assert!(!empty.overlap_in_level(0, &s("a"), &s("z")));
}

#[test]
fn overlap_at_deeper_levels() {
    let v = version_with(vec![
        vec![],
        vec![file(1, 0, "b", "d"), file(2, 0, "f", "h"), file(3, 0, "j", "l")],
    ]);
    assert!(!v.overlap_in_level(1, &s("a"), &s("a")));
    assert!(v.overlap_in_level(1, &s("a"), &s("b")));
    assert!(v.overlap_in_level(1, &s("d"), &s("d")));
    assert!(!v.overlap_in_level(1, &s("e"), &s("e")));
    assert!(v.overlap_in_level(1, &s("e"), &s("f")));
    assert!(v.overlap_in_level(1, &s("a"), &s("z")));
    assert!(!v.overlap_in_level(1, &s("i"), &s("i")));
    assert!(v.overlap_in_level(1, &s("l"), &s("z")));
    assert!(!v.overlap_in_level(1, &s("m"), &s("z")));
    assert!(!v.overlap_in_level(2, &s("a"), &s("z")));
}

#[test]
fn memtable_output_stays_at_level_0_where_level_0_overlaps() {
    let v = version_with(vec![vec![file(1, 0, "a", "m")]]);
    assert_eq!(v.pick_level_for_memtable_output(&s("c"), &s("d")), 0);
}

#[test]
fn memtable_output_goes_down_to_level_2_where_nothing_overlaps() {
    let v = Version::new();
    assert_eq!(v.pick_level_for_memtable_output(&s("c"), &s("d")), 2);
    let v = version_with(vec![vec![file(1, 0, "x", "z")], vec![file(2, 0, "p", "q")]]);
    assert_eq!(v.pick_level_for_memtable_output(&s("c"), &s("d")), 2);
}

#[test]
fn memtable_output_stops_above_a_level_that_overlaps() {
    let v = version_with(vec![vec![], vec![file(1, 0, "a", "m")]]);
    assert_eq!(v.pick_level_for_memtable_output(&s("c"), &s("d")), 0);
    let v = version_with(vec![vec![], vec![], vec![file(1, 0, "a", "m")]]);
    assert_eq!(v.pick_level_for_memtable_output(&s("c"), &s("d")), 1);
}

#[test]
fn memtable_output_stops_above_heavy_grandparents() {
    let limit = 20 * 1024 * 1024;
    let v = version_with(vec![vec![], vec![], vec![file(1, limit + 1, "a", "m")]]);
    assert_eq!(v.pick_level_for_memtable_output(&s("c"), &s("d")), 0);
    let v = version_with(vec![vec![], vec![], vec![], vec![file(1, limit + 1, "a", "m")]]);
    assert_eq!(v.pick_level_for_memtable_output(&s("c"), &s("d")), 1);
    let v = version_with(vec![vec![], vec![], vec![], vec![file(1, limit, "a", "m")]]);
    assert_eq!(v.pick_level_for_memtable_output(&s("c"), &s("d")), 2);
    let v = version_with(vec![
        vec![],
        vec![],
        vec![],
        vec![file(1, limit, "a", "c"), file(2, 1, "d", "e"), file(3, 5, "x", "z")],
    ]);
    assert_eq!(v.pick_level_for_memtable_output(&s("c"), &s("d")), 1);
}

#[test]
fn overlap_inputs_at_a_deeper_level() {
    let v = version_with(vec![
        vec![],
        vec![file(1, 0, "b", "d"), file(2, 0, "f", "h"), file(3, 0, "j", "l")],
    ]);
    let mut out = vec![file(9, 0, "x", "y")];
    v.get_overlap_inputs(1, &seek("c"), &seek("f"), &mut out);
    assert_eq!(nums(&out), vec![1, 2]);
    v.get_overlap_inputs(1, &seek("e"), &seek("e"), &mut out);
    assert_eq!(nums(&out), Vec::<u64>::new());
    v.get_overlap_inputs(1, &seek("a"), &seek("z"), &mut out);
    assert_eq!(nums(&out), vec![1, 2, 3]);
    v.get_overlap_inputs(1, &seek("g"), &seek("g"), &mut out);
    assert_eq!(nums(&out), vec![2]);
}

#[test]
fn overlap_inputs_at_level_0_widen_the_range() {
    let v = version_with(vec![vec![
        file(1, 0, "a", "c"),
        file(2, 0, "b", "f"),
        file(3, 0, "e", "h"),
        file(4, 0, "k", "m"),
        file(5, 0, "h", "i"),
    ]]);
    let mut out = Vec::new();
    v.get_overlap_inputs(0, &seek("c"), &seek("c"), &mut out);
    assert_eq!(nums(&out), vec![1, 2, 3, 5]);
    v.get_overlap_inputs(0, &seek("l"), &seek("l"), &mut out);
    assert_eq!(nums(&out), vec![4]);
    v.get_overlap_inputs(0, &seek("j"), &seek("j"), &mut out);
    assert_eq!(nums(&out), Vec::<u64>::new());
    v.get_overlap_inputs(0, &seek("i"), &seek("k"), &mut out);
    assert_eq!(nums(&out), vec![1, 2, 3, 4, 5]);
}

#[test]
fn range_of_files() {
    let files = vec![file(1, 0, "m", "p"), file(2, 0, "c", "d"), file(3, 0, "e", "z")];
    assert_eq!(range_of(&files), (s("c"), s("z")));
    assert_eq!(range_of(&vec![file(1, 0, "m", "p")]), (s("m"), s("p")));
    assert_eq!(range_of(&Vec::new()), (s(""), s("")));
    assert_eq!(nums(&clone_files(&files)), vec![1, 2, 3]);
}

#[test]
fn edit_collects_files_deletions_and_pointers() {
    let mut edit = VersionEdit::new();
    assert_eq!(edit.new_files.len(), 0);
    assert_eq!(edit.deleted_files.len(), 0);
    assert_eq!(edit.log_number, None);
    assert_eq!(edit.prev_log_number, None);
    assert_eq!(edit.next_log_number, None);
    assert_eq!(edit.last_sequence, None);
    assert_eq!(edit.next_file_number, None);
    edit.add_file(1, file(7, 70, "a", "b"));
    edit.add_file(2, file(8, 80, "c", "d"));
    edit.remove_file(1, 3);
    edit.remove_file(0, 4);
    edit.set_compact_pointer(3, key("p", 1));
    assert_eq!(edit.new_files.iter().map(|p| (p.0, p.1.num)).collect::<Vec<_>>(), vec![(1, 7), (2, 8)]);
    assert!(edit.deletes(1, 3));
    assert!(edit.deletes(0, 4));
    assert!(!edit.deletes(1, 4));
    assert!(!edit.deletes(0, 3));
    assert_eq!(edit.compact_pointers.len(), 1);
    assert_eq!(edit.compact_pointers[0].0, 3);
}

#[test]
fn merge_level_keeps_order_and_drops_deleted_files() {
    let base = vec![file(1, 0, "b", "c"), file(2, 0, "f", "g"), file(3, 0, "j", "k")];
    let mut edit = VersionEdit::new();
    edit.add_file(1, file(10, 0, "h", "i"));
    edit.add_file(2, file(11, 0, "a", "a"));
    edit.add_file(1, file(12, 0, "a", "a"));
    edit.add_file(1, file(13, 0, "x", "y"));
    edit.add_file(1, file(14, 0, "d", "e"));
    edit.remove_file(1, 2);
    edit.remove_file(1, 13);
    edit.remove_file(2, 1);
    assert_eq!(nums(&merge_level(&base, &edit, 1)), vec![12, 1, 14, 10, 3]);
    assert_eq!(nums(&merge_level(&Vec::new(), &edit, 2)), vec![11]);
    assert_eq!(nums(&merge_level(&base, &edit, 3)), vec![1, 2, 3]);
    assert_eq!(nums(&merge_level(&base, &edit, 2)), vec![11, 2, 3]);
}

#[test]
fn apply_adds_files_and_publishes_a_version() {
    let mut set = VersionSet::new();
    assert_eq!(set.versions.len(), 1);
    assert_eq!(set.current_num_level_files(0), 0);
    let mut edit = VersionEdit::new();
    edit.add_file(0, file(5, 10, "c", "d"));
    edit.add_file(0, file(6, 10, "a", "b"));
    edit.add_file(1, file(7, 10, "a", "m"));
    edit.set_compact_pointer(1, key("m", 1));
    set.log_and_apply(edit).unwrap();
    assert_eq!(set.versions.len(), 2);
    assert_eq!(set.current_num_level_files(0), 2);
    assert_eq!(set.current_num_level_files(1), 1);
    let current = &set.versions[1];
    assert_eq!(nums(&current.files[0]), vec![6, 5]);
    assert_eq!(nums(&current.files[1]), vec![7]);
    assert_eq!(current.compaction_level, 0);
    assert_eq!(current.compaction_score, Score { amount: 2, limit: 4 });
    assert!(current.file_to_compact.is_none());
    assert!(set.compact_pointer[1].as_ref().unwrap() == &key("m", 1));
    assert!(set.compact_pointer[0].is_none());
    assert_eq!(nums(&set.versions[0].files[0]), Vec::<u64>::new());
}

#[test]
fn apply_fills_in_the_numbers_that_the_edit_leaves_open() {
    let mut set = VersionSet::new();
    set.log_number = 3;
    set.prev_log_number = 2;
    set.next_file_number = 9;
    set.last_sequence = 77;
    let mut edit = VersionEdit::new();
    edit.log_number = Some(4);
    set.log_and_apply(edit).unwrap();
    let written = &set.journal[0];
    assert_eq!(written.log_number, Some(4));
    assert_eq!(written.prev_log_number, Some(2));
    assert_eq!(written.next_file_number, Some(9));
    assert_eq!(written.last_sequence, Some(77));
    assert_eq!(set.log_number, 3);
    assert_eq!(set.next_file_number, 9);
    assert_eq!(set.last_sequence(), 77);
}

#[test]
fn apply_deletes_files() {
    let mut set = VersionSet::new();
    let mut edit = VersionEdit::new();
    edit.add_file(1, file(1, 10, "a", "b"));
    edit.add_file(1, file(2, 10, "c", "d"));
    set.log_and_apply(edit).unwrap();
    let mut edit = VersionEdit::new();
    edit.remove_file(1, 1);
    edit.add_file(1, file(3, 10, "e", "f"));
    set.log_and_apply(edit).unwrap();
    assert_eq!(nums(&set.versions[2].files[1]), vec![2, 3]);
    assert_eq!(nums(&set.versions[1].files[1]), vec![1, 2]);
}

#[test]
fn apply_refuses_overlap_below_level_0_and_changes_nothing() {
    let mut set = VersionSet::new();
    let mut edit = VersionEdit::new();
    edit.add_file(1, file(1, 10, "a", "m"));
    set.log_and_apply(edit).unwrap();
    let mut edit = VersionEdit::new();
    edit.add_file(1, file(2, 10, "k", "z"));
    edit.set_compact_pointer(0, key("a", 1));
    assert_eq!(set.log_and_apply(edit), Err(KVSError::Corrupt));
    assert_eq!(set.versions.len(), 2);
    assert_eq!(set.journal.len(), 1);
    assert!(set.compact_pointer[0].is_none());
    let mut edit = VersionEdit::new();
    edit.add_file(0, file(3, 10, "k", "z"));
    edit.add_file(0, file(4, 10, "a", "z"));
    set.log_and_apply(edit).unwrap();
    assert_eq!(set.current_num_level_files(0), 2);
}

#[test]
fn score_of_level_0_is_files_over_four() {
    let mut set = VersionSet::new();
    let mut edit = VersionEdit::new();
    for i in 0..5 {
        edit.add_file(0, file(i, 10, "a", "b"));
    }
    set.log_and_apply(edit).unwrap();
    let current = &set.versions[1];
    assert_eq!(current.compaction_level, 0);
    assert_eq!(current.compaction_score, Score { amount: 5, limit: 4 });
}

#[test]
fn the_level_with_the_greatest_score_is_picked() {
    let mut set = VersionSet::new();
    let mut edit = VersionEdit::new();
    edit.add_file(0, file(1, 10, "a", "b"));
    edit.add_file(1, file(2, 3 * 1048576, "a", "b"));
    edit.add_file(2, file(3, 40 * 1048576, "a", "b"));
    edit.add_file(3, file(4, 300 * 1048576, "a", "b"));
    edit.add_file(6, file(5, u64::MAX, "a", "b"));
    set.log_and_apply(edit).unwrap();
    let current = &set.versions[1];
    assert_eq!(current.compaction_level, 2);
    assert_eq!(current.compaction_score, Score { amount: 40 * 1048576, limit: 100 * 1048576 });
    let mut edit = VersionEdit::new();
    edit.add_file(3, file(6, 100 * 1048576, "c", "d"));
    set.log_and_apply(edit).unwrap();
    let current = &set.versions[2];
    assert_eq!(current.compaction_level, 2);
    let mut edit = VersionEdit::new();
    edit.add_file(3, file(7, 1, "e", "f"));
    set.log_and_apply(edit).unwrap();
    let current = &set.versions[3];
    assert_eq!(current.compaction_level, 3);
    assert_eq!(
        current.compaction_score,
        Score { amount: 400 * 1048576 + 1, limit: 1000 * 1048576 }
    );
}

#[test]
fn file_numbers_ascend() {
    let mut set = VersionSet::new();
    let a = set.new_file_number();
    let b = set.new_file_number();
    assert_eq!(a, 1);
    assert_eq!(b, 2);
    assert_eq!(set.next_file_number, 3);
    set.set_last_sequence(5);
    assert_eq!(set.last_sequence(), 5);
    let copy = set.versions[0].duplicate();
    set.append_version(copy);
    assert_eq!(set.versions.len(), 2);
}

#[test]
fn no_compaction_is_picked_below_a_score_of_one() {
    let mut set = VersionSet::new();
    assert!(set.pick_compaction().is_none());
    let mut edit = VersionEdit::new();
    for i in 0..3 {
        edit.add_file(0, file(i, 10, "a", "b"));
    }
    set.log_and_apply(edit).unwrap();
    assert!(set.pick_compaction().is_none());
}

#[test]
fn size_compaction_at_level_0_takes_every_overlapping_file() {
    let mut set = VersionSet::new();
    let mut edit = VersionEdit::new();
    edit.add_file(0, file(1, 10, "a", "c"));
    edit.add_file(0, file(2, 10, "b", "e"));
    edit.add_file(0, file(3, 10, "x", "z"));
    edit.add_file(0, file(4, 10, "d", "f"));
    edit.add_file(1, file(5, 10, "a", "b"));
    edit.add_file(1, file(6, 10, "g", "h"));
    edit.add_file(2, file(7, 10, "a", "a"));
    edit.add_file(2, file(8, 10, "f", "f"));
    edit.add_file(2, file(9, 10, "g", "g"));
    set.log_and_apply(edit).unwrap();
    let c = set.pick_compaction().unwrap();
    assert_eq!(c.level, 0);
    assert_eq!(nums(&c.inputs[0]), vec![1, 2, 4]);
    assert_eq!(nums(&c.inputs[1]), vec![5]);
    assert_eq!(nums(&c.inputs[2]), vec![7, 8]);
    assert_eq!(c.num_input_Files(0), Ok(3));
    assert_eq!(c.num_input_Files(1), Ok(1));
    assert_eq!(c.num_input_Files(2), Ok(2));
    assert_eq!(c.num_input_Files(3), Err(KVSError::Corrupt));
    assert_eq!(c.num_input_Files(-1), Err(KVSError::Corrupt));
    assert_eq!(c.input(0, 1).num, 2);
    assert!(!c.is_trivial_move());
    assert!(c.version.is_some());
}

#[test]
fn size_compaction_starts_after_the_compact_pointer_and_wraps() {
    let mut set = VersionSet::new();
    let mut edit = VersionEdit::new();
    edit.add_file(1, file(1, 6 * 1048576, "a", "b"));
    edit.add_file(1, file(2, 6 * 1048576, "c", "d"));
    edit.add_file(1, file(3, 6 * 1048576, "e", "f"));
    edit.add_file(2, file(4, 10, "d", "e"));
    set.log_and_apply(edit).unwrap();
    let c = set.pick_compaction().unwrap();
    assert_eq!(c.level, 1);
    assert_eq!(nums(&c.inputs[0]), vec![1]);
    assert_eq!(nums(&c.inputs[1]), Vec::<u64>::new());
    assert!(c.is_trivial_move());

    let mut edit = VersionEdit::new();
    edit.set_compact_pointer(1, key("b", 1));
    set.log_and_apply(edit).unwrap();
    let c = set.pick_compaction().unwrap();
    assert_eq!(nums(&c.inputs[0]), vec![2]);
    assert_eq!(nums(&c.inputs[1]), vec![4]);
    assert!(!c.is_trivial_move());

    let mut edit = VersionEdit::new();
    edit.set_compact_pointer(1, key("f", 1));
    set.log_and_apply(edit).unwrap();
    let c = set.pick_compaction().unwrap();
    assert_eq!(nums(&c.inputs[0]), vec![1]);

    let mut edit = VersionEdit::new();
    edit.set_compact_pointer(1, key("f", 2));
    set.log_and_apply(edit).unwrap();
    let c = set.pick_compaction().unwrap();
    assert_eq!(nums(&c.inputs[0]), vec![3]);
}

#[test]
fn seek_compaction_is_picked_where_no_size_compaction_is_due() {
    let mut set = VersionSet::new();
    let mut edit = VersionEdit::new();
    edit.add_file(1, file(1, 10, "a", "b"));
    edit.add_file(1, file(2, 10, "c", "d"));
    edit.add_file(2, file(3, 10, "c", "c"));
    edit.add_file(3, file(4, 10, "d", "z"));
    set.log_and_apply(edit).unwrap();
    assert!(set.pick_compaction().is_none());
    set.versions[1].file_to_compact = Some(file(2, 10, "c", "d"));
    set.versions[1].file_to_compact_level = 1;
    let c = set.pick_compaction().unwrap();
    assert_eq!(c.level, 1);
    assert_eq!(nums(&c.inputs[0]), vec![2]);
    assert_eq!(nums(&c.inputs[1]), vec![3]);
    assert_eq!(nums(&c.inputs[2]), vec![4]);
}

#[test]
fn version_get_searches_level_0_newest_first_then_deeper_levels() {
    let mut tables = Tables::new();
    let entry = |user_key: &str, seq: u64, command: Command, pos: i64, len: usize| Entry {
        key: InternalKey::new(&user_key.to_string(), seq, command),
        pos,
        len,
    };
    tables.insert(1, encode_table(&vec![entry("a", 5, Command::Put, 15, 1), entry("c", 6, Command::Put, 16, 1)]).unwrap());
    tables.insert(2, encode_table(&vec![entry("a", 9, Command::Put, 29, 2), entry("b", 8, Command::Remove, -1, 0)]).unwrap());
    tables.insert(3, encode_table(&vec![entry("b", 2, Command::Put, 32, 3), entry("d", 1, Command::Put, 31, 3)]).unwrap());
    tables.insert(4, encode_table(&vec![entry("e", 3, Command::Put, 43, 4)]).unwrap());
    tables.insert(5, encode_table(&vec![entry("d", 0, Command::Put, 50, 5), entry("f", 0, Command::Put, 51, 5)]).unwrap());
    let f = |num: u64, lo: (&str, u64), hi: (&str, u64)| FileMetaData {
        num,
        size: 1,
        refs: 0,
        smallest_key: key(lo.0, lo.1),
        largest_key: key(hi.0, hi.1),
    };
    let v = version_with(vec![
        vec![f(1, ("a", 5), ("c", 6)), f(2, ("a", 9), ("b", 8))],
        vec![f(3, ("b", 2), ("d", 1)), f(4, ("e", 3), ("e", 3))],
        vec![f(5, ("d", 0), ("f", 0))],
    ]);
    assert_eq!(v.get(&seek("a"), &tables), Ok(Some((29, 2))));
    assert_eq!(v.get(&key("a", 8), &tables), Ok(Some((15, 1))));
    assert_eq!(v.get(&key("a", 4), &tables), Ok(None));
    assert_eq!(v.get(&seek("b"), &tables), Ok(Some((-1, 0))));
    assert_eq!(v.get(&key("b", 7), &tables), Ok(Some((32, 3))));
    assert_eq!(v.get(&seek("c"), &tables), Ok(Some((16, 1))));
    assert_eq!(v.get(&seek("d"), &tables), Ok(Some((31, 3))));
    assert_eq!(v.get(&key("d", 0), &tables), Ok(Some((50, 5))));
    assert_eq!(v.get(&seek("e"), &tables), Ok(Some((43, 4))));
    assert_eq!(v.get(&seek("f"), &tables), Ok(Some((51, 5))));
    assert_eq!(v.get(&seek("g"), &tables), Ok(None));
    assert_eq!(v.get(&seek(""), &tables), Ok(None));

    let set = VersionSet::new();
    assert_eq!(set.get(&f(4, ("e", 3), ("e", 3)), &seek("e"), &tables), Ok(Some((43, 4))));
    assert_eq!(set.get(&f(9, ("e", 3), ("e", 3)), &seek("e"), &tables), Err(KVSError::Io));
    tables.remove(&2);
    assert_eq!(v.get(&seek("a"), &tables), Err(KVSError::Io));
    assert_eq!(v.get(&seek("c"), &tables), Ok(Some((16, 1))));
    tables.insert(2, vec![1, 2, 3]);
    assert_eq!(v.get(&seek("b"), &tables), Err(KVSError::Corrupt));
}
