//! The compaction planner: the inputs of one compaction, the rules that
//! decide whether a table is moved or rewritten, where an output table is
//! closed, and which entries are dropped on the way.

use vstd::prelude::*;
use vstd::utf8::encode_utf8;
use crate::engines::kv::codec::Command;
use crate::engines::kv::key::{
    key_lt, lemma_key_order, lemma_user_key_lt_total, lemma_user_key_lt_transitive,
    user_key_at_most, user_key_le, user_key_lt, InternalKey, InternalKeyView,
};
use crate::engines::kv::options::{default_options, Options, NUM_LEVELS};
use crate::engines::kv::table::{entry_views, Entry, EntryView};
use crate::engines::kv::version::{
    grandparent_limit, max_grandparent_overlap_bytes, metas, total_file_size, total_size,
    empty_edit, FileMetaData, FileMetaView, Version, VersionEdit,
};
use crate::error::KVSError;

verus! {

/// Whether the user keys of a file hold `key`.
pub open spec fn file_covers(f: FileMetaView, key: Seq<char>) -> bool {
    user_key_le(f.smallest.user_key, key) && user_key_le(key, f.largest.user_key)
}

/// Whether some file of the list holds `key` in its range of user keys.
pub open spec fn some_file_covers(files: Seq<FileMetaView>, key: Seq<char>) -> bool {
    exists|i: int| 0 <= i < files.len() && file_covers(#[trigger] files[i], key)
}

/// Whether some file of the list has the given number.
pub open spec fn names_file(files: Seq<FileMetaView>, num: u64) -> bool {
    exists|i: int| 0 <= i < files.len() && (#[trigger] files[i]).num == num
}

/// The first place from `idx` on whose file does not end before `key`; the
/// length of the list where every file from `idx` on ends before it.
pub open spec fn advance_past(files: Seq<FileMetaView>, key: InternalKeyView, idx: int) -> int
    decreases files.len() - idx,
{
    if idx < 0 || idx >= files.len() || !key_lt(files[idx].largest, key) {
        idx
    } else {
        advance_past(files, key, idx + 1)
    }
}

/// The inputs and the state of one compaction of `level` into the level
/// below it.
#[derive(Debug)]
pub struct Compaction {
    /// The level that is compacted.
    pub level: i32,
    /// The edit that the compaction builds up.
    pub edit: VersionEdit,
    /// The version that the inputs were picked from.
    pub version: Option<Version>,
    /// The files of the level, of the level below it, and of the level
    /// below that one (the grandparents).
    pub inputs: Vec<Vec<FileMetaData>>,
    /// The first grandparent file that may still meet the keys to come.
    pub grandparent_idx: usize,
    /// Whether a key has been seen.
    pub seen_key: bool,
    /// The bytes of grandparent files that the open output table overlaps.
    pub overlapped_bytes: u128,
    /// The size at which an output table is closed.
    pub max_output_file_size: u64,
}

impl Compaction {
    /// One of the three lists of input files, as mathematical values.
    pub open spec fn input_files(&self, which: int) -> Seq<FileMetaView> {
        metas(self.inputs@[which]@)
    }

    /// There are three lists of inputs, the cursor lies within the
    /// grandparents, and the overlapped bytes are those of files that the
    /// cursor has passed.
    pub open spec fn wf(&self) -> bool {
        &&& self.inputs@.len() == 3
        &&& self.grandparent_idx <= self.input_files(2).len()
        &&& self.overlapped_bytes <= self.grandparent_idx * u64::MAX
        &&& self.version is Some ==> self.version.unwrap().wf()
    }

    /// A compaction of `level` without inputs.
    pub fn new(level: i32) -> (c: Compaction)
        ensures
            c.wf(),
            c.level == level,
            c.input_files(0).len() == 0,
            c.input_files(1).len() == 0,
            c.input_files(2).len() == 0,
            c.version is None,
            c.grandparent_idx == 0,
            !c.seen_key,
            c.overlapped_bytes == 0,
            c.max_output_file_size == default_options().max_file_size,
            c.edit@ == empty_edit(),
            c.edit.levels_in_range(),
    {
        let mut inputs: Vec<Vec<FileMetaData>> = Vec::new();
        inputs.push(Vec::new());
        inputs.push(Vec::new());
        inputs.push(Vec::new());
        let c = Compaction {
            level,
            edit: VersionEdit::new(),
            version: None,
            inputs,
            grandparent_idx: 0,
            seen_key: false,
            overlapped_bytes: 0,
            max_output_file_size: Options::default().max_file_size as u64,
        };
        assert(c.input_files(0) =~= Seq::<FileMetaView>::empty());
        assert(c.input_files(1) =~= Seq::<FileMetaView>::empty());
        assert(c.input_files(2) =~= Seq::<FileMetaView>::empty());
        c
    }

    /// How many files one of the three lists of inputs holds. Fails with
    /// `Corrupt` exactly when `which` names none of them.
    #[allow(non_snake_case)]
    pub fn num_input_Files(&self, which: i32) -> (r: Result<usize, KVSError>)
        requires
            self.wf(),
        ensures
            0 <= which < 3 ==> r == Ok::<usize, KVSError>(
                self.input_files(which as int).len() as usize,
            ),
            !(0 <= which < 3) ==> r == Err::<usize, KVSError>(KVSError::Corrupt),
    {
        if which < 0 || which >= 3 {
            Err(KVSError::Corrupt)
        } else {
            Ok(self.inputs[which as usize].len())
        }
    }

    /// A copy of the `i`-th file of one of the lists of inputs.
    pub fn input(&self, which: i32, i: i32) -> (f: FileMetaData)
        requires
            self.wf(),
            0 <= which < 3,
            0 <= i < self.input_files(which as int).len(),
        ensures
            f@ == self.input_files(which as int)[i as int],
    {
        self.inputs[which as usize][i as usize].clone()
    }

    /// The size at which an output table is closed.
    pub fn max_output_file_size(&self) -> (n: u64)
        ensures
            n == self.max_output_file_size,
    {
        self.max_output_file_size
    }

    /// Whether the compaction can be done by moving its one input file to
    /// the next level: there is one file at the level, none at the next,
    /// and the grandparents hold no more than ten times the size limit of a
    /// table.
    pub fn is_trivial_move(&self) -> (r: bool)
        requires
            self.wf(),
        ensures
            r == (self.input_files(0).len() == 1 && self.input_files(1).len() == 0 && total_size(
                self.input_files(2),
            ) <= grandparent_limit(default_options())),
    {
        self.inputs[0].len() == 1 && self.inputs[1].len() == 0 && total_file_size(&self.inputs[2])
            <= max_grandparent_overlap_bytes(Options::default())
    }

    /// Marks every input file of the level and of the level below it as
    /// deleted in the edit.
    pub fn add_input_deletions(&mut self)
        requires
            old(self).wf(),
            old(self).level < i32::MAX,
        ensures
            final(self).wf(),
            forall|p: (i32, u64)|
                #![trigger final(self).edit@.deleted.contains(p)]
                final(self).edit@.deleted.contains(p) <==> old(self).edit@.deleted.contains(p) || (p.0
                    == old(self).level && names_file(old(self).input_files(0), p.1)) || (p.0
                    == old(self).level + 1 && names_file(old(self).input_files(1), p.1)),
            final(self).edit@.added == old(self).edit@.added,
            final(self).edit@.pointers == old(self).edit@.pointers,
            final(self).edit@.log_number == old(self).edit@.log_number,
            final(self).edit@.prev_log_number == old(self).edit@.prev_log_number,
            final(self).edit@.next_log_number == old(self).edit@.next_log_number,
            final(self).edit@.last_sequence == old(self).edit@.last_sequence,
            final(self).edit@.next_file_number == old(self).edit@.next_file_number,
            final(self).level == old(self).level,
            final(self).inputs == old(self).inputs,
            final(self).version == old(self).version,
            final(self).grandparent_idx == old(self).grandparent_idx,
            final(self).overlapped_bytes == old(self).overlapped_bytes,
            final(self).seen_key == old(self).seen_key,
            final(self).max_output_file_size == old(self).max_output_file_size,
            old(self).edit.levels_in_range() && 0 <= old(self).level < NUM_LEVELS - 1
                ==> final(self).edit.levels_in_range(),
    {
        let ghost before = self.edit@;
        let ghost first = self.input_files(0);
        let ghost second = self.input_files(1);
        let level = self.level;
        let mut which: i32 = 0;
        while which < 2
            invariant
                0 <= which <= 2,
                self.wf(),
                self.level == level,
                level < i32::MAX,
                self.inputs == old(self).inputs,
                self.version == old(self).version,
                self.grandparent_idx == old(self).grandparent_idx,
                self.overlapped_bytes == old(self).overlapped_bytes,
                self.seen_key == old(self).seen_key,
                self.max_output_file_size == old(self).max_output_file_size,
                first == self.input_files(0),
                second == self.input_files(1),
                old(self).edit.levels_in_range() && 0 <= level < NUM_LEVELS - 1
                    ==> self.edit.levels_in_range(),
                self.edit@.added == before.added,
                self.edit@.pointers == before.pointers,
                self.edit@.log_number == before.log_number,
                self.edit@.prev_log_number == before.prev_log_number,
                self.edit@.next_log_number == before.next_log_number,
                self.edit@.last_sequence == before.last_sequence,
                self.edit@.next_file_number == before.next_file_number,
                forall|p: (i32, u64)|
                    #![trigger self.edit@.deleted.contains(p)]
                    self.edit@.deleted.contains(p) <==> before.deleted.contains(p) || (which >= 1
                        && p.0 == level && names_file(first, p.1)) || (which >= 2 && p.0 == level + 1
                        && names_file(second, p.1)),
            decreases 2 - which,
        {
            let ghost mid = self.edit@;
            let ghost files = self.input_files(which as int);
            let mut i: usize = 0;
            while i < self.inputs[which as usize].len()
                invariant
                    0 <= which < 2,
                    self.wf(),
                    i <= files.len(),
                    files == self.input_files(which as int),
                    self.level == level,
                    level < i32::MAX,
                    self.inputs == old(self).inputs,
                    self.version == old(self).version,
                    self.grandparent_idx == old(self).grandparent_idx,
                    self.overlapped_bytes == old(self).overlapped_bytes,
                    self.seen_key == old(self).seen_key,
                    self.max_output_file_size == old(self).max_output_file_size,
                    old(self).edit.levels_in_range() && 0 <= level < NUM_LEVELS - 1
                        ==> self.edit.levels_in_range(),
                    self.edit@.added == before.added,
                    self.edit@.pointers == before.pointers,
                    self.edit@.log_number == before.log_number,
                    self.edit@.prev_log_number == before.prev_log_number,
                    self.edit@.next_log_number == before.next_log_number,
                    self.edit@.last_sequence == before.last_sequence,
                    self.edit@.next_file_number == before.next_file_number,
                    forall|p: (i32, u64)|
                        #![trigger self.edit@.deleted.contains(p)]
                        self.edit@.deleted.contains(p) <==> mid.deleted.contains(p) || (p.0 == level
                            + which && names_file(files.take(i as int), p.1)),
                decreases files.len() - i,
            {
                let num = self.inputs[which as usize][i].num;
                let ghost step = self.edit@;
                self.edit.remove_file(level + which, num);
                proof {
                    assert(files[i as int].num == num);
                    let target: (i32, u64) = ((level + which) as i32, num);
                    assert(self.edit@.deleted == step.deleted.insert(target));
                    assert forall|p: (i32, u64)|
                        self.edit@.deleted.contains(p) <==> mid.deleted.contains(p) || (p.0 == level
                            + which && names_file(files.take(i + 1), p.1)) by {
                        assert(self.edit@.deleted.contains(p) <==> step.deleted.contains(p) || p
                            == target);
                        assert(step.deleted.contains(p) <==> mid.deleted.contains(p) || (p.0 == level
                            + which && names_file(files.take(i as int), p.1)));
                        if names_file(files.take(i as int), p.1) {
                            let k = choose|k: int|
                                0 <= k < files.take(i as int).len() && (#[trigger] files.take(
                                    i as int,
                                )[k]).num == p.1;
                            assert(files.take(i + 1)[k].num == p.1);
                        }
                        if p.0 == level + which && p.1 == num {
                            assert(files.take(i + 1)[i as int].num == p.1);
                        }
                        if names_file(files.take(i + 1), p.1) {
                            let k = choose|k: int|
                                0 <= k < files.take(i + 1).len() && (#[trigger] files.take(i + 1)[k]).num
                                    == p.1;
                            if k < i {
                                assert(files.take(i as int)[k].num == p.1);
                            }
                        }
                    }
                }
                i = i + 1;
            }
            assert(files.take(i as int) =~= files);
            which = which + 1;
        }
    }

    /// Whether no level from the grandparents on holds a file whose range
    /// of user keys covers `key`: only then may a `Remove` of the key be
    /// dropped without an older `Set` coming back to light.
    pub fn is_base_level_for_key(&self, key: &String) -> (r: bool)
        requires
            self.wf(),
            self.version is Some,
            0 <= self.level,
        ensures
            r == !(exists|l: int|
                self.level + 2 <= l < NUM_LEVELS && some_file_covers(
                    #[trigger] self.version.unwrap().level(l),
                    key@,
                )),
    {
        let version = match &self.version {
            Some(v) => v,
            None => {
                return true;
            },
        };
        if self.level >= NUM_LEVELS - 2 {
            return true;
        }
        assert(*version == self.version.unwrap());
        let mut lvl: i32 = self.level + 2;
        while lvl < NUM_LEVELS
            invariant
                self.level + 2 <= lvl <= NUM_LEVELS,
                0 <= self.level,
                version.wf(),
                self.version is Some,
                *version == self.version.unwrap(),
                forall|l: int|
                    self.level + 2 <= l < lvl ==> !some_file_covers(
                        #[trigger] version.level(l),
                        key@,
                    ),
            decreases NUM_LEVELS - lvl,
        {
            let files = &version.files[lvl as usize];
            let ghost all = version.level(lvl as int);
            let mut i: usize = 0;
            while i < files.len()
                invariant
                    i <= files.len(),
                    all == metas(files@),
                    all == version.level(lvl as int),
                    self.version is Some,
                    *version == self.version.unwrap(),
                    self.level + 2 <= lvl < NUM_LEVELS,
                    forall|j: int| 0 <= j < i ==> !file_covers(#[trigger] all[j], key@),
                decreases files.len() - i,
            {
                if user_key_at_most(files[i].smallest_key.user_key.as_str(), key.as_str())
                    && user_key_at_most(key.as_str(), files[i].largest_key.user_key.as_str()) {
                    assert(file_covers(all[i as int], key@));
                    assert(some_file_covers(version.level(lvl as int), key@));
                    return false;
                }
                i = i + 1;
            }
            lvl = lvl + 1;
        }
        true
    }

    /// Whether the open output table should be closed before `key` is
    /// added. The cursor moves past every grandparent file that ends before
    /// the key, and the bytes of those files are added to the overlapped
    /// bytes; where these then exceed ten times the size limit of a table,
    /// they are set back to zero and the answer is yes.
    pub fn should_stop_before(&mut self, key: &InternalKey) -> (r: bool)
        requires
            old(self).wf(),
        ensures
            final(self).wf(),
            final(self).grandparent_idx == advance_past(
                old(self).input_files(2),
                key@,
                old(self).grandparent_idx as int,
            ),
            r == (old(self).overlapped_bytes + total_size(
                old(self).input_files(2).subrange(
                    old(self).grandparent_idx as int,
                    final(self).grandparent_idx as int,
                ),
            ) > grandparent_limit(default_options())),
            final(self).overlapped_bytes == (if r {
                0
            } else {
                old(self).overlapped_bytes + total_size(
                    old(self).input_files(2).subrange(
                        old(self).grandparent_idx as int,
                        final(self).grandparent_idx as int,
                    ),
                )
            }),
            final(self).seen_key,
            final(self).level == old(self).level,
            final(self).inputs == old(self).inputs,
            final(self).version == old(self).version,
            final(self).edit == old(self).edit,
            final(self).max_output_file_size == old(self).max_output_file_size,
    {
        let ghost gp = self.input_files(2);
        let ghost start = self.grandparent_idx as int;
        let ghost base = self.overlapped_bytes as nat;
        assert(gp.subrange(start, start) =~= Seq::<FileMetaView>::empty());
        while self.grandparent_idx < self.inputs[2].len() && self.inputs[2][self.grandparent_idx].largest_key.precedes(
            key,
        )
            invariant
                self.wf(),
                gp == self.input_files(2),
                0 <= start <= self.grandparent_idx <= gp.len(),
                advance_past(gp, key@, start) == advance_past(gp, key@, self.grandparent_idx as int),
                self.overlapped_bytes == base + total_size(
                    gp.subrange(start, self.grandparent_idx as int),
                ),
                self.level == old(self).level,
                self.inputs == old(self).inputs,
                self.version == old(self).version,
                self.edit == old(self).edit,
                self.max_output_file_size == old(self).max_output_file_size,
            decreases gp.len() - self.grandparent_idx,
        {
            let ghost idx = self.grandparent_idx as int;
            proof {
                assert(gp.subrange(start, idx + 1).drop_last() =~= gp.subrange(start, idx));
                assert(gp.subrange(start, idx + 1).last() == gp[idx]);
                assert((idx + 1) * u64::MAX == idx * u64::MAX + u64::MAX) by (nonlinear_arith);
                assert(idx * u64::MAX + u64::MAX <= usize::MAX * u64::MAX + u64::MAX)
                    by (nonlinear_arith)
                    requires
                        idx <= usize::MAX,
                ;
            }
            self.overlapped_bytes = self.overlapped_bytes + self.inputs[2][self.grandparent_idx].size as u128;
            self.grandparent_idx = self.grandparent_idx + 1;
        }
        self.seen_key = true;
        if self.overlapped_bytes > max_grandparent_overlap_bytes(Options::default()) {
            self.overlapped_bytes = 0;
            true
        } else {
            false
        }
    }

    /// Lets go of the version that the inputs were picked from.
    pub fn release_version(&mut self)
        requires
            old(self).wf(),
        ensures
            final(self).wf(),
            final(self).version is None,
            final(self).level == old(self).level,
            final(self).inputs == old(self).inputs,
            final(self).edit == old(self).edit,
            final(self).grandparent_idx == old(self).grandparent_idx,
            final(self).overlapped_bytes == old(self).overlapped_bytes,
            final(self).seen_key == old(self).seen_key,
            final(self).max_output_file_size == old(self).max_output_file_size,
    {
        self.version = None;
    }
}

// ---------------------------------------------------------------------------
// The merge loop
// ---------------------------------------------------------------------------

/// Whether no level from the grandparents of `level` on holds a file whose
/// range of user keys covers `key`.
pub open spec fn is_base_level(levels: Seq<Seq<FileMetaView>>, level: int, key: Seq<char>) -> bool {
    !(exists|l: int| level + 2 <= l < levels.len() && some_file_covers(#[trigger] levels[l], key))
}

/// `is_base_level` over the levels of a version says what
/// `is_base_level_for_key` answers.
pub proof fn lemma_is_base_level(version: Version, level: int, key: Seq<char>)
    requires
        version.wf(),
        0 <= level,
    ensures
        is_base_level(version.levels(), level, key) == !(exists|l: int|
            level + 2 <= l < NUM_LEVELS && some_file_covers(#[trigger] version.level(l), key)),
{
    let levels = version.levels();
    if exists|l: int| level + 2 <= l < NUM_LEVELS && some_file_covers(#[trigger] version.level(l), key) {
        let l = choose|l: int|
            level + 2 <= l < NUM_LEVELS && some_file_covers(#[trigger] version.level(l), key);
        assert(levels[l] == version.level(l));
    }
    if exists|l: int| level + 2 <= l < levels.len() && some_file_covers(#[trigger] levels[l], key) {
        let l = choose|l: int|
            level + 2 <= l < levels.len() && some_file_covers(#[trigger] levels[l], key);
        assert(levels[l] == version.level(l));
    }
}

/// Whether the merge drops the `i`-th entry: its sequence number is not
/// above the smallest snapshot, and either the entry before it is of the
/// same user key, which makes this one superseded, or it is a `Remove` and
/// no deeper level holds the key.
pub open spec fn is_dropped(
    entries: Seq<EntryView>,
    i: int,
    smallest_snapshot: u64,
    levels: Seq<Seq<FileMetaView>>,
    level: int,
) -> bool {
    entries[i].key.sequence_num <= smallest_snapshot && ((i > 0 && entries[i - 1].key.user_key
        == entries[i].key.user_key) || (entries[i].key.command == Command::Remove && is_base_level(
        levels,
        level,
        entries[i].key.user_key,
    )))
}

/// The first `n` entries without those that the merge drops.
pub open spec fn kept_entries(
    entries: Seq<EntryView>,
    n: int,
    smallest_snapshot: u64,
    levels: Seq<Seq<FileMetaView>>,
    level: int,
) -> Seq<EntryView>
    decreases n,
{
    if n <= 0 {
        Seq::empty()
    } else if is_dropped(entries, n - 1, smallest_snapshot, levels, level) {
        kept_entries(entries, n - 1, smallest_snapshot, levels, level)
    } else {
        kept_entries(entries, n - 1, smallest_snapshot, levels, level).push(entries[n - 1])
    }
}

/// Whether the entries ascend in the order of their keys.
pub open spec fn in_merged_order(entries: Seq<EntryView>) -> bool {
    forall|a: int, b: int|
        #![trigger entries[a], entries[b]]
        0 <= a < b < entries.len() ==> key_lt(entries[a].key, entries[b].key)
}

/// What the merge keeps of the first `n` entries are the entries among them
/// that it does not drop.
pub proof fn lemma_kept_entries_members(
    entries: Seq<EntryView>,
    n: int,
    smallest_snapshot: u64,
    levels: Seq<Seq<FileMetaView>>,
    level: int,
    e: EntryView,
)
    requires
        0 <= n <= entries.len(),
    ensures
        kept_entries(entries, n, smallest_snapshot, levels, level).contains(e) <==> exists|i: int|
            0 <= i < n && #[trigger] entries[i] == e && !is_dropped(
                entries,
                i,
                smallest_snapshot,
                levels,
                level,
            ),
    decreases n,
{
    if n > 0 {
        lemma_kept_entries_members(entries, n - 1, smallest_snapshot, levels, level, e);
        let before = kept_entries(entries, n - 1, smallest_snapshot, levels, level);
        let now = kept_entries(entries, n, smallest_snapshot, levels, level);
        if !is_dropped(entries, n - 1, smallest_snapshot, levels, level) {
            assert(now == before.push(entries[n - 1]));
            if before.contains(e) {
                let k = choose|k: int| 0 <= k < before.len() && before[k] == e;
                assert(now[k] == e);
            }
            if entries[n - 1] == e {
                assert(now[now.len() - 1] == e);
            }
            if now.contains(e) {
                let k = choose|k: int| 0 <= k < now.len() && now[k] == e;
                if k < before.len() {
                    assert(before[k] == e);
                }
            }
        }
    }
}

/// Of entries in merged order, and with every sequence number within the
/// smallest snapshot, the merge keeps the newest entry of each user key,
/// and nothing else; and it keeps not even that where it is a `Remove` of a
/// key that no deeper level holds.
pub proof fn lemma_merge_keeps_the_newest(
    entries: Seq<EntryView>,
    smallest_snapshot: u64,
    levels: Seq<Seq<FileMetaView>>,
    level: int,
    e: EntryView,
)
    requires
        in_merged_order(entries),
        forall|i: int|
            0 <= i < entries.len() ==> (#[trigger] entries[i]).key.sequence_num <= smallest_snapshot,
    ensures
        kept_entries(entries, entries.len() as int, smallest_snapshot, levels, level).contains(e)
            <==> entries.contains(e) && (forall|j: int|
            0 <= j < entries.len() && (#[trigger] entries[j]).key.user_key == e.key.user_key
                ==> entries[j].key.sequence_num <= e.key.sequence_num) && !(e.key.command
            == Command::Remove && is_base_level(levels, level, e.key.user_key)),
{
    let n = entries.len() as int;
    lemma_kept_entries_members(entries, n, smallest_snapshot, levels, level, e);
    if entries.contains(e) {
        let i = choose|i: int| 0 <= i < n && entries[i] == e;
        // The entry stands at one place only.
        assert forall|k: int| 0 <= k < n && #[trigger] entries[k] == e implies k == i by {
            if k < i {
                assert(key_lt(entries[k].key, entries[i].key));
                lemma_key_order(e.key, e.key, e.key);
            } else if i < k {
                assert(key_lt(entries[i].key, entries[k].key));
                lemma_key_order(e.key, e.key, e.key);
            }
        }
        let newest = forall|j: int|
            0 <= j < n && (#[trigger] entries[j]).key.user_key == e.key.user_key
                ==> entries[j].key.sequence_num <= e.key.sequence_num;
        let first = i == 0 || entries[i - 1].key.user_key != e.key.user_key;
        if first {
            assert forall|j: int|
                0 <= j < n && (#[trigger] entries[j]).key.user_key
                    == e.key.user_key implies entries[j].key.sequence_num
                <= e.key.sequence_num by {
                if j < i {
                    // Every entry between two of one user key is of that user key.
                    assert(key_lt(entries[j].key, entries[i].key));
                    if j < i - 1 {
                        assert(key_lt(entries[j].key, entries[i - 1].key));
                    }
                    assert(key_lt(entries[i - 1].key, entries[i].key));
                    lemma_user_key_lt_total(
                        entries[j].key.user_key,
                        entries[i - 1].key.user_key,
                    );
                    lemma_user_key_lt_total(
                        entries[i - 1].key.user_key,
                        entries[i].key.user_key,
                    );
                    if user_key_lt(
                        entries[j].key.user_key,
                        entries[i - 1].key.user_key,
                    ) {
                        lemma_user_key_lt_transitive(
                            entries[j].key.user_key,
                            entries[i - 1].key.user_key,
                            entries[i].key.user_key,
                        );
                    }
                } else if j > i {
                    assert(key_lt(entries[i].key, entries[j].key));
                    lemma_user_key_lt_total(
                        entries[i].key.user_key,
                        entries[j].key.user_key,
                    );
                }
            }
        } else {
            assert(key_lt(entries[i - 1].key, entries[i].key));
            lemma_user_key_lt_total(
                entries[i - 1].key.user_key,
                entries[i].key.user_key,
            );
            assert(entries[i - 1].key.sequence_num > e.key.sequence_num);
        }
        assert(first <==> newest);
    }
}

/// The bytes that the frame of an entry takes in a table.
pub open spec fn entry_size(e: EntryView) -> nat {
    encode_utf8(e.key.user_key).len() + 33
}

/// Where the merge loop stands: the output tables that are closed, the one
/// that is open with its size, and the cursor into the grandparents with
/// the bytes that the open table overlaps.
pub struct MergeView {
    pub closed: Seq<Seq<EntryView>>,
    pub open: Seq<EntryView>,
    pub open_size: nat,
    pub grandparent_idx: int,
    pub overlapped_bytes: nat,
}

/// What the merge loop is run with.
pub struct MergeRules {
    pub smallest_snapshot: u64,
    pub levels: Seq<Seq<FileMetaView>>,
    pub level: int,
    pub grandparents: Seq<FileMetaView>,
    pub max_output_file_size: nat,
    pub overlap_limit: nat,
}

/// One turn of the merge loop, for the `i`-th entry. The cursor into the
/// grandparents moves past the files that end before the entry; where the
/// open table then overlaps too many bytes of them, it is closed. The entry
/// is dropped or added to the open table, which is closed where it has
/// reached its size.
pub open spec fn merge_step(st: MergeView, entries: Seq<EntryView>, i: int, rules: MergeRules) -> MergeView {
    let e = entries[i];
    let idx = advance_past(rules.grandparents, e.key, st.grandparent_idx);
    let total = st.overlapped_bytes + total_size(
        rules.grandparents.subrange(st.grandparent_idx, idx),
    );
    let stop = total > rules.overlap_limit;
    let overlapped = if stop {
        0nat
    } else {
        total
    };
    let cut = stop && st.open.len() > 0;
    let closed = if cut {
        st.closed.push(st.open)
    } else {
        st.closed
    };
    let open = if cut {
        Seq::empty()
    } else {
        st.open
    };
    let open_size = if cut {
        0nat
    } else {
        st.open_size
    };
    if is_dropped(entries, i, rules.smallest_snapshot, rules.levels, rules.level) {
        MergeView { closed, open, open_size, grandparent_idx: idx, overlapped_bytes: overlapped }
    } else if open_size + entry_size(e) >= rules.max_output_file_size {
        MergeView {
            closed: closed.push(open.push(e)),
            open: Seq::empty(),
            open_size: 0,
            grandparent_idx: idx,
            overlapped_bytes: overlapped,
        }
    } else {
        MergeView {
            closed,
            open: open.push(e),
            open_size: open_size + entry_size(e),
            grandparent_idx: idx,
            overlapped_bytes: overlapped,
        }
    }
}

/// Where the merge loop stands after the first `n` entries.
pub open spec fn merge_state(start: MergeView, entries: Seq<EntryView>, n: int, rules: MergeRules) -> MergeView
    decreases n,
{
    if n <= 0 {
        start
    } else {
        merge_step(merge_state(start, entries, n - 1, rules), entries, n - 1, rules)
    }
}

/// The output tables of a merge: those that were closed on the way, and
/// the one that is open at the end where it holds an entry.
pub open spec fn merge_outputs(st: MergeView) -> Seq<Seq<EntryView>> {
    if st.open.len() > 0 {
        st.closed.push(st.open)
    } else {
        st.closed
    }
}

/// The entries of the tables in order.
pub open spec fn flattened(tables: Seq<Seq<EntryView>>) -> Seq<EntryView>
    decreases tables.len(),
{
    if tables.len() == 0 {
        Seq::empty()
    } else {
        flattened(tables.drop_last()) + tables.last()
    }
}

/// The state that a merge starts from: no output, and the cursor of the
/// compaction.
pub open spec fn merge_start(grandparent_idx: int, overlapped_bytes: nat) -> MergeView {
    MergeView {
        closed: Seq::empty(),
        open: Seq::empty(),
        open_size: 0,
        grandparent_idx,
        overlapped_bytes,
    }
}

/// What the merge puts out is the entries that it does not drop, in their
/// order; and no output table that was closed is empty.
pub proof fn lemma_merge_keeps(
    grandparent_idx: int,
    overlapped_bytes: nat,
    entries: Seq<EntryView>,
    n: int,
    rules: MergeRules,
)
    requires
        0 <= n <= entries.len(),
    ensures
        ({
            let st = merge_state(merge_start(grandparent_idx, overlapped_bytes), entries, n, rules);
            &&& flattened(st.closed) + st.open == kept_entries(
                entries,
                n,
                rules.smallest_snapshot,
                rules.levels,
                rules.level,
            )
            &&& flattened(merge_outputs(st)) == kept_entries(
                entries,
                n,
                rules.smallest_snapshot,
                rules.levels,
                rules.level,
            )
            &&& forall|t: int| 0 <= t < st.closed.len() ==> (#[trigger] st.closed[t]).len() > 0
            &&& forall|t: int|
                0 <= t < merge_outputs(st).len() ==> (#[trigger] merge_outputs(st)[t]).len() > 0
        }),
    decreases n,
{
    let start = merge_start(grandparent_idx, overlapped_bytes);
    let st = merge_state(start, entries, n, rules);
    if n == 0 {
        assert(flattened(st.closed) + st.open =~= Seq::<EntryView>::empty());
    } else {
        lemma_merge_keeps(grandparent_idx, overlapped_bytes, entries, n - 1, rules);
        let before = merge_state(start, entries, n - 1, rules);
        let e = entries[n - 1];
        let kept_before = kept_entries(
            entries,
            n - 1,
            rules.smallest_snapshot,
            rules.levels,
            rules.level,
        );
        let idx = advance_past(rules.grandparents, e.key, before.grandparent_idx);
        let total = before.overlapped_bytes + total_size(
            rules.grandparents.subrange(before.grandparent_idx, idx),
        );
        let cut = total > rules.overlap_limit && before.open.len() > 0;
        let closed = if cut {
            before.closed.push(before.open)
        } else {
            before.closed
        };
        let open = if cut {
            Seq::<EntryView>::empty()
        } else {
            before.open
        };
        if cut {
            assert(closed.drop_last() =~= before.closed);
            assert(flattened(closed) + open =~= flattened(before.closed) + before.open);
        }
        assert(flattened(closed) + open == kept_before);
        if !is_dropped(entries, n - 1, rules.smallest_snapshot, rules.levels, rules.level) {
            assert(closed.push(open.push(e)).drop_last() =~= closed);
            assert(flattened(closed) + open.push(e) =~= kept_before.push(e));
            assert(flattened(closed.push(open.push(e))) + Seq::<EntryView>::empty()
                =~= kept_before.push(e));
        }
    }
    if st.open.len() > 0 {
        assert(st.closed.push(st.open).drop_last() =~= st.closed);
    } else {
        assert(flattened(st.closed) + st.open =~= flattened(st.closed));
    }
}

/// The tables of a list, as mathematical values.
pub open spec fn table_views(tables: Seq<Vec<Entry>>) -> Seq<Seq<EntryView>> {
    tables.map_values(|t: Vec<Entry>| entry_views(t@))
}

impl Compaction {
    /// The rules that a merge of this compaction runs with.
    pub open spec fn rules(&self, smallest_snapshot: u64) -> MergeRules {
        MergeRules {
            smallest_snapshot,
            levels: self.version.unwrap().levels(),
            level: self.level as int,
            grandparents: self.input_files(2),
            max_output_file_size: self.max_output_file_size as nat,
            overlap_limit: grandparent_limit(default_options()),
        }
    }

    /// Runs the merge loop over the entries of the inputs, which are given
    /// in merged order, and returns the entries of each output table.
    ///
    /// Before each entry the open output table is closed where it would
    /// overlap too many bytes of grandparent files. An entry is dropped
    /// where its sequence number is not above the smallest snapshot and
    /// either the entry before it is of the same user key or it is a
    /// `Remove` of a key that no deeper level holds. Every other entry goes
    /// to the open output table, which is closed where it has reached the
    /// size limit. What comes out is the entries that are not dropped, in
    /// their order, in tables of which none is empty.
    pub fn merge_entries(&mut self, entries: &Vec<Entry>, smallest_snapshot: u64) -> (outputs: Vec<
        Vec<Entry>,
    >)
        requires
            old(self).wf(),
            old(self).version is Some,
            0 <= old(self).level,
        ensures
            final(self).wf(),
            table_views(outputs@) == merge_outputs(
                merge_state(
                    merge_start(
                        old(self).grandparent_idx as int,
                        old(self).overlapped_bytes as nat,
                    ),
                    entry_views(entries@),
                    entries@.len() as int,
                    old(self).rules(smallest_snapshot),
                ),
            ),
            flattened(table_views(outputs@)) == kept_entries(
                entry_views(entries@),
                entries@.len() as int,
                smallest_snapshot,
                old(self).version.unwrap().levels(),
                old(self).level as int,
            ),
            forall|t: int| 0 <= t < outputs@.len() ==> (#[trigger] outputs@[t])@.len() > 0,
            final(self).level == old(self).level,
            final(self).inputs == old(self).inputs,
            final(self).version == old(self).version,
            final(self).edit == old(self).edit,
            final(self).max_output_file_size == old(self).max_output_file_size,
    {
        let ghost all = entry_views(entries@);
        let ghost rules = self.rules(smallest_snapshot);
        let ghost start = merge_start(self.grandparent_idx as int, self.overlapped_bytes as nat);
        let mut outputs: Vec<Vec<Entry>> = Vec::new();
        let mut open: Vec<Entry> = Vec::new();
        let mut open_size: u128 = 0;
        let mut i: usize = 0;
        assert(table_views(outputs@) =~= Seq::<Seq<EntryView>>::empty());
        assert(entry_views(open@) =~= Seq::<EntryView>::empty());
        while i < entries.len()
            invariant
                i <= entries.len(),
                self.wf(),
                self.version is Some,
                0 <= self.level,
                all == entry_views(entries@),
                rules == self.rules(smallest_snapshot),
                rules == old(self).rules(smallest_snapshot),
                open_size <= u64::MAX,
                merge_state(start, all, i as int, rules) == (MergeView {
                    closed: table_views(outputs@),
                    open: entry_views(open@),
                    open_size: open_size as nat,
                    grandparent_idx: self.grandparent_idx as int,
                    overlapped_bytes: self.overlapped_bytes as nat,
                }),
                self.level == old(self).level,
                self.inputs == old(self).inputs,
                self.version == old(self).version,
                self.edit == old(self).edit,
                self.max_output_file_size == old(self).max_output_file_size,
            decreases entries.len() - i,
        {
            let ghost e = all[i as int];
            assert(e == entries@[i as int]@);
            let stop = self.should_stop_before(&entries[i].key);
            if stop && open.len() > 0 {
                let ghost closed_before = table_views(outputs@);
                let ghost open_before = entry_views(open@);
                outputs.push(open);
                assert(table_views(outputs@) =~= closed_before.push(open_before));
                open = Vec::new();
                open_size = 0;
                assert(entry_views(open@) =~= Seq::<EntryView>::empty());
            }
            let mut drop = false;
            if entries[i].key.sequence_num <= smallest_snapshot {
                if i > 0 && entries[i - 1].key.user_key == entries[i].key.user_key {
                    assert(all[i - 1] == entries@[i - 1]@);
                    drop = true;
                } else {
                    proof {
                        if i > 0 {
                            assert(all[i - 1] == entries@[i - 1]@);
                        }
                    }
                    proof {
                        lemma_is_base_level(self.version.unwrap(), self.level as int, e.key.user_key);
                    }
                    match entries[i].key.command {
                        Command::Remove => {
                            if self.is_base_level_for_key(&entries[i].key.user_key) {
                                drop = true;
                            }
                        },
                        _ => {},
                    }
                }
            }
            assert(drop == is_dropped(all, i as int, smallest_snapshot, rules.levels, rules.level));
            if !drop {
                let size: u128 = entries[i].key.user_key.as_str().as_bytes().len() as u128 + 33;
                assert(size == entry_size(e));
                let ghost open_before = entry_views(open@);
                open.push(entries[i].clone());
                assert(entry_views(open@) =~= open_before.push(e));
                if open_size + size >= self.max_output_file_size as u128 {
                    let ghost closed_before = table_views(outputs@);
                    let ghost full = entry_views(open@);
                    outputs.push(open);
                    assert(table_views(outputs@) =~= closed_before.push(full));
                    open = Vec::new();
                    open_size = 0;
                    assert(entry_views(open@) =~= Seq::<EntryView>::empty());
                } else {
                    open_size = open_size + size;
                }
            }
            i = i + 1;
        }
        proof {
            lemma_merge_keeps(
                start.grandparent_idx,
                start.overlapped_bytes,
                all,
                entries@.len() as int,
                rules,
            );
        }
        if open.len() > 0 {
            let ghost closed_before = table_views(outputs@);
            let ghost last = entry_views(open@);
            outputs.push(open);
            assert(table_views(outputs@) =~= closed_before.push(last));
        }
        proof {
            let views = table_views(outputs@);
            assert forall|t: int| 0 <= t < outputs@.len() implies (#[trigger] outputs@[t])@.len()
                > 0 by {
                assert(views[t].len() > 0);
                assert(views[t] == entry_views(outputs@[t]@));
            }
        }
        outputs
    }
}

} // verus!
