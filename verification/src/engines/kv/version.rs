//! The versioned file set: which sorted tables make up each level, how an
//! edit turns one version into the next, and where a key or a range of user
//! keys may be found.

use vstd::prelude::*;
use vstd::pervasive::VecAdditionalExecFns;
use std::cmp::Ordering;
use crate::engines::kv::codec::Command;
use crate::engines::kv::compaction::Compaction;
use crate::engines::kv::key::{
    key_le, key_lt, key_same, lemma_key_order, lemma_user_key_le_lt, lemma_user_key_lt_total,
    user_key_le, user_key_less, user_key_lt, InternalKey, InternalKeyView,
    MAX_SEQUENCE_NUM,
};
use crate::engines::kv::options::{default_options, Options, MAX_MEM_COMPACT_LEVEL, NUM_LEVELS};
use crate::error::KVSError;

verus! {

// ---------------------------------------------------------------------------
// File metadata
// ---------------------------------------------------------------------------

/// What the file set knows of one sorted table.
#[derive(Debug)]
pub struct FileMetaData {
    pub num: u64,
    pub size: u64,
    pub refs: u64,
    pub smallest_key: InternalKey,
    pub largest_key: InternalKey,
}

/// The metadata of a table as a mathematical value.
pub struct FileMetaView {
    pub num: u64,
    pub size: u64,
    pub refs: u64,
    pub smallest: InternalKeyView,
    pub largest: InternalKeyView,
}

impl View for FileMetaData {
    type V = FileMetaView;

    open spec fn view(&self) -> FileMetaView {
        FileMetaView {
            num: self.num,
            size: self.size,
            refs: self.refs,
            smallest: self.smallest_key@,
            largest: self.largest_key@,
        }
    }
}

impl Clone for FileMetaData {
    fn clone(&self) -> (file: FileMetaData)
        ensures
            file@ == self@,
    {
        FileMetaData {
            num: self.num,
            size: self.size,
            refs: self.refs,
            smallest_key: self.smallest_key.clone(),
            largest_key: self.largest_key.clone(),
        }
    }
}

impl FileMetaData {
    /// Compares two files by smallest key, and by number where the
    /// smallest keys take the same place.
    pub fn cmp_by_smallest(&self, other: &FileMetaData) -> (r: Option<Ordering>)
        ensures
            r == Some(Ordering::Less) <==> file_lt(self@, other@),
            r == Some(Ordering::Greater) <==> file_lt(other@, self@),
            r is Some,
    {
        proof {
            lemma_key_order(self@.smallest, other@.smallest, self@.smallest);
        }
        if self.smallest_key.same_place(&other.smallest_key) {
            if self.num < other.num {
                Some(Ordering::Less)
            } else if self.num > other.num {
                Some(Ordering::Greater)
            } else {
                Some(Ordering::Equal)
            }
        } else if self.smallest_key.precedes(&other.smallest_key) {
            Some(Ordering::Less)
        } else {
            Some(Ordering::Greater)
        }
    }

    /// Whether this file is kept before `other` in a level.
    pub fn sorts_before(&self, other: &FileMetaData) -> (r: bool)
        ensures
            r == file_lt(self@, other@),
    {
        match self.cmp_by_smallest(other) {
            Some(Ordering::Less) => true,
            _ => false,
        }
    }
}

/// The metadata of the files of a list, as mathematical values.
pub open spec fn metas(files: Seq<FileMetaData>) -> Seq<FileMetaView> {
    files.map_values(|f: FileMetaData| f@)
}

/// The order that the files of a level are kept in: by smallest key, and
/// by number where the smallest keys take the same place.
pub open spec fn file_lt(a: FileMetaView, b: FileMetaView) -> bool {
    key_lt(a.smallest, b.smallest) || (key_same(a.smallest, b.smallest) && a.num < b.num)
}

/// Whether the user keys of a file meet the range from `lo` to `hi`.
pub open spec fn file_meets(f: FileMetaView, lo: Seq<char>, hi: Seq<char>) -> bool {
    !user_key_lt(f.largest.user_key, lo) && !user_key_lt(hi, f.smallest.user_key)
}

/// Whether the user keys of a file lie within the range from `lo` to `hi`.
pub open spec fn file_within(f: FileMetaView, lo: Seq<char>, hi: Seq<char>) -> bool {
    user_key_le(lo, f.smallest.user_key) && user_key_le(f.largest.user_key, hi)
}

/// Whether the largest keys of the files ascend.
pub open spec fn sorted_by_largest(files: Seq<FileMetaView>) -> bool {
    forall|i: int, j: int|
        #![trigger files[i], files[j]]
        0 <= i < j < files.len() ==> key_lt(files[i].largest, files[j].largest)
}

/// Whether each file starts after the file before it ends, and no file
/// ends before it starts: the invariant of every level but the first.
pub open spec fn disjoint_ascending(files: Seq<FileMetaView>) -> bool {
    &&& forall|i: int| 0 <= i < files.len() ==> key_le((#[trigger] files[i]).smallest, files[i].largest)
    &&& forall|i: int, j: int|
        #![trigger files[i], files[j]]
        0 <= i < j < files.len() ==> key_lt(files[i].largest, files[j].smallest)
}

/// Files that are disjoint and ascending have ascending largest keys.
pub proof fn lemma_disjoint_is_sorted(files: Seq<FileMetaView>)
    requires
        disjoint_ascending(files),
    ensures
        sorted_by_largest(files),
{
    assert forall|i: int, j: int|
        #![trigger files[i], files[j]]
        0 <= i < j < files.len() implies key_lt(files[i].largest, files[j].largest) by {
        lemma_key_order(files[i].largest, files[j].smallest, files[j].largest);
    }
}

/// The sum of the sizes of the files.
pub open spec fn total_size(files: Seq<FileMetaView>) -> nat
    decreases files.len(),
{
    if files.len() == 0 {
        0
    } else {
        total_size(files.drop_last()) + files.last().size as nat
    }
}

/// The sum of the sizes of a list of files is below the length of the list
/// times the largest size.
pub proof fn lemma_total_size_bound(files: Seq<FileMetaView>)
    ensures
        total_size(files) <= files.len() * u64::MAX,
    decreases files.len(),
{
    if files.len() > 0 {
        lemma_total_size_bound(files.drop_last());
        assert(files.len() * u64::MAX == (files.len() - 1) * u64::MAX + u64::MAX) by (nonlinear_arith);
    }
}

/// The sum of the sizes of the files.
pub fn total_file_size(files: &Vec<FileMetaData>) -> (sum: u128)
    ensures
        sum == total_size(metas(files@)),
{
    let mut sum: u128 = 0;
    let mut i: usize = 0;
    let ghost all = metas(files@);
    assert(all.take(0) =~= Seq::<FileMetaView>::empty());
    while i < files.len()
        invariant
            i <= files.len(),
            all == metas(files@),
            sum == total_size(all.take(i as int)),
        decreases files.len() - i,
    {
        proof {
            lemma_total_size_bound(all.take(i as int));
            assert(all.take(i + 1).drop_last() =~= all.take(i as int));
            assert(all.take(i + 1).last() == files@[i as int]@);
            assert(i * u64::MAX + u64::MAX <= usize::MAX * u64::MAX + u64::MAX) by (nonlinear_arith)
                requires
                    i <= usize::MAX,
            ;
        }
        sum = sum + files[i].size as u128;
        i = i + 1;
    }
    assert(all.take(i as int) =~= all);
    sum
}

/// The most bytes of grandparent files that one output table of a
/// compaction may overlap: ten times the size limit of a table.
pub open spec fn grandparent_limit(options: Options) -> nat {
    options.max_file_size as nat * 10
}

/// The most bytes of grandparent files that one output table of a
/// compaction may overlap.
pub fn max_grandparent_overlap_bytes(options: Options) -> (limit: u128)
    ensures
        limit == grandparent_limit(options),
{
    options.max_file_size as u128 * 10
}

/// The most bytes that a level from the first on should hold: ten
/// mebibytes for level 1, and ten times more for each level after it. What
/// does not fit 64 bits is held at the largest value.
pub open spec fn level_capacity(level: int) -> nat
    decreases level,
{
    if level <= 1 {
        10485760
    } else if level_capacity(level - 1) * 10 > u64::MAX {
        u64::MAX as nat
    } else {
        level_capacity(level - 1) * 10
    }
}

/// The most bytes that a level should hold.
pub fn max_bytes_for_level(level: i32) -> (bytes: u64)
    ensures
        bytes == level_capacity(level as int),
{
    let mut result: u64 = 10485760;
    let mut at: i32 = 1;
    while at < level
        invariant
            1 <= at,
            at <= level || level < 1,
            level < 1 ==> at == 1,
            result == level_capacity(at as int),
        decreases level - at,
    {
        result = if result > 1844674407370955161u64 {
            u64::MAX
        } else {
            result * 10
        };
        at = at + 1;
    }
    proof {
        if level < 1 {
            assert(level_capacity(level as int) == 10485760);
            assert(level_capacity(1) == 10485760);
        }
    }
    result
}

/// The first file whose largest key is not before `key`, counted from the
/// start of the list; the length of the list where every file ends before
/// the key.
pub open spec fn first_not_before(files: Seq<FileMetaView>, key: InternalKeyView, r: int) -> bool {
    &&& 0 <= r <= files.len()
    &&& forall|i: int| 0 <= i < r ==> key_lt((#[trigger] files[i]).largest, key)
    &&& forall|i: int| r <= i < files.len() ==> key_le(key, (#[trigger] files[i]).largest)
}

/// Binary search by largest key: the smallest index `i` such that `key` is
/// not after the largest key of file `i`.
pub fn find_file(files: &Vec<FileMetaData>, key: &InternalKey) -> (r: usize)
    requires
        sorted_by_largest(metas(files@)),
    ensures
        first_not_before(metas(files@), key@, r as int),
{
    let ghost all = metas(files@);
    let mut l: usize = 0;
    let mut r: usize = files.len();
    while l < r
        invariant
            l <= r <= files.len(),
            all == metas(files@),
            sorted_by_largest(all),
            forall|i: int| 0 <= i < l ==> key_lt((#[trigger] all[i]).largest, key@),
            forall|i: int| r <= i < all.len() ==> key_le(key@, (#[trigger] all[i]).largest),
        decreases r - l,
    {
        let mid: usize = l + (r - l) / 2;
        if files[mid].largest_key.precedes(key) {
            proof {
                assert forall|i: int| 0 <= i < mid + 1 implies key_lt(
                    (#[trigger] all[i]).largest,
                    key@,
                ) by {
                    if i < mid {
                        assert(key_lt(all[i].largest, all[mid as int].largest));
                        lemma_key_order(all[i].largest, all[mid as int].largest, key@);
                    }
                }
            }
            l = mid + 1;
        } else {
            proof {
                assert forall|i: int| mid <= i < all.len() implies key_le(
                    key@,
                    (#[trigger] all[i]).largest,
                ) by {
                    lemma_key_order(all[mid as int].largest, key@, all[i].largest);
                    lemma_key_order(key@, all[mid as int].largest, all[i].largest);
                    if i > mid {
                        assert(key_lt(all[mid as int].largest, all[i].largest));
                    }
                }
            }
            r = mid;
        }
    }
    r
}

// ---------------------------------------------------------------------------
// Ranges of user keys and the files that meet them
// ---------------------------------------------------------------------------

/// Whether some file of the list meets the range from `lo` to `hi`.
pub open spec fn some_file_meets(files: Seq<FileMetaView>, lo: Seq<char>, hi: Seq<char>) -> bool {
    exists|i: int| 0 <= i < files.len() && file_meets(#[trigger] files[i], lo, hi)
}

/// The files of the list that meet the range from `lo` to `hi`, in the
/// order of the list.
pub open spec fn overlapping(files: Seq<FileMetaView>, lo: Seq<char>, hi: Seq<char>) -> Seq<
    FileMetaView,
>
    decreases files.len(),
{
    if files.len() == 0 {
        Seq::empty()
    } else if file_meets(files.last(), lo, hi) {
        overlapping(files.drop_last(), lo, hi).push(files.last())
    } else {
        overlapping(files.drop_last(), lo, hi)
    }
}

/// The files that are collected for a range are the files of the list that
/// meet it.
pub proof fn lemma_overlapping_members(
    files: Seq<FileMetaView>,
    lo: Seq<char>,
    hi: Seq<char>,
    f: FileMetaView,
)
    ensures
        overlapping(files, lo, hi).contains(f) <==> files.contains(f) && file_meets(f, lo, hi),
    decreases files.len(),
{
    if files.len() > 0 {
        let front = files.drop_last();
        let last = files.last();
        lemma_overlapping_members(front, lo, hi, f);
        let before = overlapping(front, lo, hi);
        let now = overlapping(files, lo, hi);
        if front.contains(f) {
            let k = choose|k: int| 0 <= k < front.len() && front[k] == f;
            assert(files[k] == f);
        }
        if files.contains(f) {
            let k = choose|k: int| 0 <= k < files.len() && files[k] == f;
            if k < front.len() {
                assert(front[k] == f);
            }
        }
        if file_meets(last, lo, hi) {
            assert(now == before.push(last));
            if before.contains(f) {
                let k = choose|k: int| 0 <= k < before.len() && before[k] == f;
                assert(now[k] == f);
            }
            if last == f {
                assert(now[now.len() - 1] == f);
            }
            if now.contains(f) {
                let k = choose|k: int| 0 <= k < now.len() && now[k] == f;
                if k < before.len() {
                    assert(before[k] == f);
                }
            }
        }
    }
}

/// Whether a user key lies outside the range from `lo` to `hi`.
pub open spec fn outside(k: Seq<char>, lo: Seq<char>, hi: Seq<char>) -> bool {
    user_key_lt(k, lo) || user_key_lt(hi, k)
}

/// How many ends of files lie outside the range from `lo` to `hi`.
pub open spec fn ends_outside(files: Seq<FileMetaView>, lo: Seq<char>, hi: Seq<char>) -> nat
    decreases files.len(),
{
    if files.len() == 0 {
        0
    } else {
        ends_outside(files.drop_last(), lo, hi) + (if outside(
            files.last().smallest.user_key,
            lo,
            hi,
        ) {
            1nat
        } else {
            0nat
        }) + (if outside(files.last().largest.user_key, lo, hi) {
            1nat
        } else {
            0nat
        })
    }
}

/// A wider range leaves no more ends of files outside; and fewer where an
/// end of file `at` is outside the narrower range and inside the wider.
pub proof fn lemma_ends_outside_shrinks(
    files: Seq<FileMetaView>,
    lo: Seq<char>,
    hi: Seq<char>,
    lo2: Seq<char>,
    hi2: Seq<char>,
    at: int,
)
    requires
        user_key_le(lo2, lo),
        user_key_le(hi, hi2),
    ensures
        ends_outside(files, lo2, hi2) <= ends_outside(files, lo, hi),
        0 <= at < files.len() && ((outside(files[at].smallest.user_key, lo, hi) && !outside(
            files[at].smallest.user_key,
            lo2,
            hi2,
        )) || (outside(files[at].largest.user_key, lo, hi) && !outside(
            files[at].largest.user_key,
            lo2,
            hi2,
        ))) ==> ends_outside(files, lo2, hi2) < ends_outside(files, lo, hi),
    decreases files.len(),
{
    if files.len() > 0 {
        let f = files.last();
        lemma_ends_outside_shrinks(files.drop_last(), lo, hi, lo2, hi2, at);
        lemma_user_key_le_lt(f.smallest.user_key, lo2, lo);
        lemma_user_key_le_lt(hi, hi2, f.smallest.user_key);
        lemma_user_key_le_lt(f.largest.user_key, lo2, lo);
        lemma_user_key_le_lt(hi, hi2, f.largest.user_key);
        if 0 <= at < files.len() - 1 {
            assert(files.drop_last()[at] == files[at]);
        }
    }
}

/// The range that a scan of the files from index `i` widens `lo` to `hi`
/// to: a file that meets the range and starts before it moves the start
/// of the range to its own and the scan starts over; one that ends after it
/// moves the end likewise. The scan ends with a range that no file both
/// meets and reaches out of.
pub open spec fn widened(files: Seq<FileMetaView>, lo: Seq<char>, hi: Seq<char>, i: int) -> (
    Seq<char>,
    Seq<char>,
)
    decreases ends_outside(files, lo, hi), files.len() - i,
    when 0 <= i
    via widened_decreases
{
    if i >= files.len() {
        (lo, hi)
    } else if file_meets(files[i], lo, hi) && user_key_lt(files[i].smallest.user_key, lo) {
        widened(files, files[i].smallest.user_key, hi, 0)
    } else if file_meets(files[i], lo, hi) && user_key_lt(hi, files[i].largest.user_key) {
        widened(files, lo, files[i].largest.user_key, 0)
    } else {
        widened(files, lo, hi, i + 1)
    }
}

#[via_fn]
proof fn widened_decreases(files: Seq<FileMetaView>, lo: Seq<char>, hi: Seq<char>, i: int) {
    if i < files.len() {
        lemma_widening_step(files, lo, hi, i);
    }
}

/// Widening the range to an end of a file that meets it and reaches out of
/// it brings at least one end of a file into the range.
pub proof fn lemma_widening_step(files: Seq<FileMetaView>, lo: Seq<char>, hi: Seq<char>, i: int)
    requires
        0 <= i < files.len(),
    ensures
        file_meets(files[i], lo, hi) && user_key_lt(files[i].smallest.user_key, lo)
            ==> ends_outside(files, files[i].smallest.user_key, hi) < ends_outside(files, lo, hi),
        file_meets(files[i], lo, hi) && user_key_lt(hi, files[i].largest.user_key)
            ==> ends_outside(files, lo, files[i].largest.user_key) < ends_outside(files, lo, hi),
{
    let f = files[i];
    if file_meets(f, lo, hi) && user_key_lt(f.smallest.user_key, lo) {
        lemma_user_key_lt_total(f.smallest.user_key, f.smallest.user_key);
        lemma_user_key_le_lt(hi, f.smallest.user_key, hi);
        lemma_ends_outside_shrinks(files, lo, hi, f.smallest.user_key, hi, i);
    }
    if file_meets(f, lo, hi) && user_key_lt(hi, f.largest.user_key) {
        lemma_user_key_lt_total(f.largest.user_key, f.largest.user_key);
        lemma_user_key_le_lt(f.largest.user_key, lo, f.largest.user_key);
        lemma_ends_outside_shrinks(files, lo, hi, lo, f.largest.user_key, i);
    }
}

/// The widened range holds the range it was widened from, and every file
/// from `i` on that meets it lies within it, given that those before `i`
/// do.
pub proof fn lemma_widened_is_closed(files: Seq<FileMetaView>, lo: Seq<char>, hi: Seq<char>, i: int)
    requires
        0 <= i <= files.len(),
        forall|j: int|
            0 <= j < i && file_meets(#[trigger] files[j], lo, hi) ==> file_within(files[j], lo, hi),
    ensures
        user_key_le(widened(files, lo, hi, i).0, lo),
        user_key_le(hi, widened(files, lo, hi, i).1),
        forall|j: int|
            0 <= j < files.len() && file_meets(
                #[trigger] files[j],
                widened(files, lo, hi, i).0,
                widened(files, lo, hi, i).1,
            ) ==> file_within(files[j], widened(files, lo, hi, i).0, widened(files, lo, hi, i).1),
    decreases ends_outside(files, lo, hi), files.len() - i,
{
    if i < files.len() {
        let f = files[i];
        if file_meets(f, lo, hi) && user_key_lt(f.smallest.user_key, lo) {
            lemma_widening_step(files, lo, hi, i);
            lemma_widened_is_closed(files, f.smallest.user_key, hi, 0);
            lemma_user_key_le_lt(widened(files, f.smallest.user_key, hi, 0).0, f.smallest.user_key, lo);
        } else if file_meets(f, lo, hi) && user_key_lt(hi, f.largest.user_key) {
            lemma_widening_step(files, lo, hi, i);
            lemma_widened_is_closed(files, lo, f.largest.user_key, 0);
            lemma_user_key_le_lt(hi, f.largest.user_key, widened(files, lo, f.largest.user_key, 0).1);
        } else {
            assert forall|j: int|
                0 <= j < i + 1 && file_meets(#[trigger] files[j], lo, hi) implies file_within(
                files[j],
                lo,
                hi,
            ) by {
                if j == i {
                    lemma_user_key_le_lt(lo, f.smallest.user_key, lo);
                    lemma_user_key_le_lt(f.largest.user_key, hi, hi);
                }
            }
            lemma_widened_is_closed(files, lo, hi, i + 1);
        }
    }
}

/// The level that the search for a place for the output of a memtable
/// ends at when it has come down to `level`.
pub open spec fn pick_level_from(
    levels: Seq<Seq<FileMetaView>>,
    lo: Seq<char>,
    hi: Seq<char>,
    level: int,
    limit: nat,
) -> int
    decreases MAX_MEM_COMPACT_LEVEL - level,
{
    if level >= MAX_MEM_COMPACT_LEVEL || level < 0 {
        level
    } else if some_file_meets(levels[level + 1], lo, hi) {
        level
    } else if level + 2 < NUM_LEVELS && total_size(overlapping(levels[level + 2], lo, hi)) > limit {
        level
    } else {
        pick_level_from(levels, lo, hi, level + 1, limit)
    }
}

/// The level that the output of a memtable is placed at.
pub open spec fn memtable_output_level(
    levels: Seq<Seq<FileMetaView>>,
    lo: Seq<char>,
    hi: Seq<char>,
    limit: nat,
) -> int {
    if some_file_meets(levels[0], lo, hi) {
        0
    } else {
        pick_level_from(levels, lo, hi, 0, limit)
    }
}

// ---------------------------------------------------------------------------
// Versions
// ---------------------------------------------------------------------------

/// A compaction score: a number of files over the trigger, or a number of
/// bytes over the capacity of a level.
#[derive(Debug, Clone, Copy, PartialEq, Eq, Structural)]
pub struct Score {
    pub amount: u128,
    pub limit: u64,
}

/// Whether one score is greater than another, as fractions.
pub open spec fn score_gt(a: Score, b: Score) -> bool {
    a.amount * b.limit > b.amount * a.limit
}

/// Whether a score is one or more.
pub open spec fn score_at_least_one(a: Score) -> bool {
    a.amount >= a.limit
}

/// One snapshot of the files of each level, with the level that should be
/// compacted next and its score.
#[derive(Debug)]
pub struct Version {
    pub files: Vec<Vec<FileMetaData>>,
    pub compaction_score: Score,
    pub compaction_level: i32,
    pub file_to_compact: Option<FileMetaData>,
    pub file_to_compact_level: i32,
}

impl Version {
    /// The files of a level, as mathematical values.
    pub open spec fn level(&self, level: int) -> Seq<FileMetaView> {
        metas(self.files@[level]@)
    }

    /// The files of every level, as mathematical values.
    pub open spec fn levels(&self) -> Seq<Seq<FileMetaView>> {
        Seq::new(self.files@.len(), |l: int| self.level(l))
    }

    /// There are `NUM_LEVELS` levels; from level 1 on the files of a level
    /// are disjoint and ascending; a score of one or more names a level
    /// that holds a file and has a level below it; and a file to compact
    /// for seeks sits at such a level too.
    pub open spec fn wf(&self) -> bool {
        &&& self.files@.len() == NUM_LEVELS
        &&& forall|l: int| 1 <= l < NUM_LEVELS ==> disjoint_ascending(#[trigger] self.level(l))
        &&& self.compaction_score.limit > 0
        &&& score_at_least_one(self.compaction_score) ==> 0 <= self.compaction_level < NUM_LEVELS
            - 1 && self.level(self.compaction_level as int).len() > 0
        &&& self.file_to_compact is Some ==> 0 <= self.file_to_compact_level < NUM_LEVELS - 1
    }

    /// A version without files.
    pub fn new() -> (v: Version)
        ensures
            v.wf(),
            forall|l: int| 0 <= l < NUM_LEVELS ==> (#[trigger] v.level(l)).len() == 0,
            !score_at_least_one(v.compaction_score),
            v.file_to_compact is None,
    {
        let mut files: Vec<Vec<FileMetaData>> = Vec::new();
        let mut l: i32 = 0;
        while l < NUM_LEVELS
            invariant
                0 <= l <= NUM_LEVELS,
                files@.len() == l,
                forall|k: int| 0 <= k < l ==> (#[trigger] files@[k])@.len() == 0,
            decreases NUM_LEVELS - l,
        {
            files.push(Vec::new());
            l = l + 1;
        }
        let v = Version {
            files,
            compaction_score: Score { amount: 0, limit: 1 },
            compaction_level: -1,
            file_to_compact: None,
            file_to_compact_level: -1,
        };
        assert forall|k: int| 0 <= k < NUM_LEVELS implies (#[trigger] v.level(k)).len() == 0 by {
            assert(v.files@[k]@.len() == 0);
        }
        v
    }

    /// Whether some file of the level meets the range of user keys. At
    /// level 0 every file is looked at; deeper, where files are disjoint
    /// and ascending, the first file that does not end before the range is
    /// found by binary search and held against the end of the range.
    pub fn overlap_in_level(
        &self,
        level: i32,
        smallest_user_key: &String,
        largest_user_key: &String,
    ) -> (r: bool)
        requires
            self.wf(),
            0 <= level < NUM_LEVELS,
        ensures
            r == some_file_meets(self.level(level as int), smallest_user_key@, largest_user_key@),
    {
        let files = &self.files[level as usize];
        let ghost all = self.level(level as int);
        let ghost lo = smallest_user_key@;
        let ghost hi = largest_user_key@;
        if level == 0 {
            let mut i: usize = 0;
            while i < files.len()
                invariant
                    i <= files.len(),
                    all == metas(files@),
                    all == self.level(level as int),
                    lo == smallest_user_key@,
                    hi == largest_user_key@,
                    forall|j: int| 0 <= j < i ==> !file_meets(#[trigger] all[j], lo, hi),
                decreases files.len() - i,
            {
                if !(user_key_less(files[i].largest_key.user_key.as_str(), smallest_user_key.as_str())
                    || user_key_less(
                    largest_user_key.as_str(),
                    files[i].smallest_key.user_key.as_str(),
                )) {
                    assert(file_meets(all[i as int], lo, hi));
                    return true;
                }
                i = i + 1;
            }
            false
        } else {
            let probe = InternalKey::new(smallest_user_key, u64::MAX, Command::Seek);
            proof {
                lemma_disjoint_is_sorted(all);
            }
            let idx = find_file(files, &probe);
            proof {
                assert forall|j: int| 0 <= j < idx implies !file_meets(#[trigger] all[j], lo, hi) by {
                    assert(key_lt(all[j].largest, probe@));
                }
                assert forall|j: int| idx <= j < all.len() implies !user_key_lt(
                    (#[trigger] all[j]).largest.user_key,
                    lo,
                ) by {
                    assert(key_le(probe@, all[j].largest));
                    lemma_user_key_lt_total(lo, all[j].largest.user_key);
                }
            }
            if idx >= files.len() {
                false
            } else {
                let r = !user_key_less(
                    largest_user_key.as_str(),
                    files[idx].smallest_key.user_key.as_str(),
                );
                proof {
                    if r {
                        assert(file_meets(all[idx as int], lo, hi));
                    } else {
                        assert forall|j: int| idx < j < all.len() implies !file_meets(
                            #[trigger] all[j],
                            lo,
                            hi,
                        ) by {
                            let a = all[idx as int];
                            let b = all[j];
                            assert(key_lt(a.largest, b.smallest));
                            assert(key_le(a.smallest, a.largest));
                            lemma_key_order(a.smallest, a.largest, b.smallest);
                            lemma_user_key_lt_total(a.smallest.user_key, b.smallest.user_key);
                            lemma_user_key_le_lt(hi, a.smallest.user_key, b.smallest.user_key);
                        }
                    }
                }
                r
            }
        }
    }

    /// The level that the output of a memtable whose user keys span `lo`
    /// to `hi` is placed at. It stays at level 0 where a file of level 0
    /// meets the range. Else it goes down while the level is above
    /// `MAX_MEM_COMPACT_LEVEL`, no file of the next level meets the range,
    /// and the files of the level after the next that meet the range hold
    /// no more than ten times the size limit of a table.
    pub fn pick_level_for_memtable_output(
        &self,
        smallest_user_key: &String,
        largest_user_key: &String,
    ) -> (level: i32)
        requires
            self.wf(),
        ensures
            level == memtable_output_level(
                self.levels(),
                smallest_user_key@,
                largest_user_key@,
                grandparent_limit(default_options()),
            ),
            0 <= level <= MAX_MEM_COMPACT_LEVEL,
    {
        let mut level: i32 = 0;
        let ghost levels = self.levels();
        let ghost lo = smallest_user_key@;
        let ghost hi = largest_user_key@;
        let ghost limit = grandparent_limit(default_options());
        if !self.overlap_in_level(0, smallest_user_key, largest_user_key) {
            let start = InternalKey::new(smallest_user_key, MAX_SEQUENCE_NUM, Command::Seek);
            let end = InternalKey::new(largest_user_key, 0, Command::Seek);
            let mut overlaps: Vec<FileMetaData> = Vec::new();
            while level < MAX_MEM_COMPACT_LEVEL
                invariant_except_break
                    pick_level_from(levels, lo, hi, 0, limit) == pick_level_from(
                        levels,
                        lo,
                        hi,
                        level as int,
                        limit,
                    ),
                invariant
                    0 <= level <= MAX_MEM_COMPACT_LEVEL,
                    self.wf(),
                    levels == self.levels(),
                    lo == smallest_user_key@,
                    hi == largest_user_key@,
                    limit == grandparent_limit(default_options()),
                    start@.user_key == lo,
                    end@.user_key == hi,
                ensures
                    level == pick_level_from(levels, lo, hi, 0, limit),
                decreases MAX_MEM_COMPACT_LEVEL - level,
            {
                if self.overlap_in_level(level + 1, smallest_user_key, largest_user_key) {
                    break;
                }
                if level + 2 < NUM_LEVELS {
                    self.get_overlap_inputs(level + 2, &start, &end, &mut overlaps);
                    if total_file_size(&overlaps) > max_grandparent_overlap_bytes(Options::default()) {
                        break;
                    }
                }
                level = level + 1;
            }
        }
        level
    }

    /// Collects the files of the level that meet the range of user keys
    /// from `begin` to `end`, in the order of the level. At level 0, where
    /// files overlap, a file that is picked and reaches out of the range
    /// widens the range to its own end and the collection starts over, so
    /// that what is collected is every file that meets the widened range.
    pub fn get_overlap_inputs(
        &self,
        level: i32,
        begin: &InternalKey,
        end: &InternalKey,
        inputs: &mut Vec<FileMetaData>,
    )
        requires
            self.wf(),
            0 <= level < NUM_LEVELS,
        ensures
            level > 0 ==> metas(final(inputs)@) == overlapping(
                self.level(level as int),
                begin@.user_key,
                end@.user_key,
            ),
            level == 0 ==> metas(final(inputs)@) == overlapping(
                self.level(0),
                widened(self.level(0), begin@.user_key, end@.user_key, 0).0,
                widened(self.level(0), begin@.user_key, end@.user_key, 0).1,
            ),
    {
        inputs.clear();
        let files = &self.files[level as usize];
        let ghost all = self.level(level as int);
        let mut user_begin: String = begin.user_key.clone();
        let mut user_end: String = end.user_key.clone();
        let mut i: usize = 0;
        assert(all.take(0) =~= Seq::<FileMetaView>::empty());
        assert(metas(inputs@) =~= Seq::<FileMetaView>::empty());
        while i < files.len()
            invariant
                i <= files.len(),
                0 <= level < NUM_LEVELS,
                all == metas(files@),
                level > 0 ==> user_begin@ == begin@.user_key && user_end@ == end@.user_key,
                metas(inputs@) == overlapping(all.take(i as int), user_begin@, user_end@),
                level == 0 ==> widened(all, begin@.user_key, end@.user_key, 0) == widened(
                    all,
                    user_begin@,
                    user_end@,
                    i as int,
                ),
            decreases ends_outside(all, user_begin@, user_end@), files.len() - i,
        {
            let ghost lo = user_begin@;
            let ghost hi = user_end@;
            let ghost f = all[i as int];
            assert(all.take(i + 1).drop_last() =~= all.take(i as int));
            assert(all.take(i + 1).last() == f);
            let meets = !(user_key_less(files[i].largest_key.user_key.as_str(), user_begin.as_str())
                || user_key_less(user_end.as_str(), files[i].smallest_key.user_key.as_str()));
            if meets {
                if level == 0 && user_key_less(
                    files[i].smallest_key.user_key.as_str(),
                    user_begin.as_str(),
                ) {
                    proof {
                        lemma_widening_step(all, lo, hi, i as int);
                    }
                    user_begin = files[i].smallest_key.user_key.clone();
                    inputs.clear();
                    i = 0;
                    assert(all.take(0) =~= Seq::<FileMetaView>::empty());
                    assert(metas(inputs@) =~= Seq::<FileMetaView>::empty());
                } else if level == 0 && user_key_less(
                    user_end.as_str(),
                    files[i].largest_key.user_key.as_str(),
                ) {
                    proof {
                        lemma_widening_step(all, lo, hi, i as int);
                    }
                    user_end = files[i].largest_key.user_key.clone();
                    inputs.clear();
                    i = 0;
                    assert(all.take(0) =~= Seq::<FileMetaView>::empty());
                    assert(metas(inputs@) =~= Seq::<FileMetaView>::empty());
                } else {
                    let ghost before = metas(inputs@);
                    inputs.push(files[i].clone());
                    assert(metas(inputs@) =~= before.push(f));
                    i = i + 1;
                }
            } else {
                i = i + 1;
            }
        }
        assert(all.take(i as int) =~= all);
    }
}

// ---------------------------------------------------------------------------
// Version edits
// ---------------------------------------------------------------------------

/// The difference between one version and the next.
#[derive(Debug)]
pub struct VersionEdit {
    pub new_files: Vec<(i32, FileMetaData)>,
    pub deleted_files: Vec<(i32, u64)>,
    pub compact_pointers: Vec<(i32, InternalKey)>,
    pub log_number: Option<u64>,
    pub prev_log_number: Option<u64>,
    pub next_log_number: Option<u64>,
    pub last_sequence: Option<u64>,
    pub next_file_number: Option<u64>,
}

/// An edit as a mathematical value: the files it adds with their levels in
/// the order they were added, the set of files it deletes by level and
/// number, and the compact pointers it moves.
pub struct VersionEditView {
    pub added: Seq<(i32, FileMetaView)>,
    pub deleted: Set<(i32, u64)>,
    pub pointers: Seq<(i32, InternalKeyView)>,
    pub log_number: Option<u64>,
    pub prev_log_number: Option<u64>,
    pub next_log_number: Option<u64>,
    pub last_sequence: Option<u64>,
    pub next_file_number: Option<u64>,
}

impl View for VersionEdit {
    type V = VersionEditView;

    open spec fn view(&self) -> VersionEditView {
        VersionEditView {
            added: self.new_files@.map_values(|p: (i32, FileMetaData)| (p.0, p.1@)),
            deleted: Set::new(|p: (i32, u64)| self.deleted_files@.contains(p)),
            pointers: self.compact_pointers@.map_values(|p: (i32, InternalKey)| (p.0, p.1@)),
            log_number: self.log_number,
            prev_log_number: self.prev_log_number,
            next_log_number: self.next_log_number,
            last_sequence: self.last_sequence,
            next_file_number: self.next_file_number,
        }
    }
}

/// The edit that changes nothing.
pub open spec fn empty_edit() -> VersionEditView {
    VersionEditView {
        added: Seq::empty(),
        deleted: Set::empty(),
        pointers: Seq::empty(),
        log_number: None,
        prev_log_number: None,
        next_log_number: None,
        last_sequence: None,
        next_file_number: None,
    }
}

impl VersionEdit {
    /// Whether every level that the edit names is a level of the file set.
    pub open spec fn levels_in_range(&self) -> bool {
        &&& forall|i: int|
            0 <= i < self.new_files@.len() ==> 0 <= (#[trigger] self.new_files@[i]).0 < NUM_LEVELS
        &&& forall|i: int|
            0 <= i < self.deleted_files@.len() ==> 0 <= (#[trigger] self.deleted_files@[i]).0
                < NUM_LEVELS
        &&& forall|i: int|
            0 <= i < self.compact_pointers@.len() ==> 0 <= (#[trigger] self.compact_pointers@[i]).0
                < NUM_LEVELS
    }

    /// An edit that changes nothing.
    pub fn new() -> (edit: VersionEdit)
        ensures
            edit@ == empty_edit(),
            edit.levels_in_range(),
    {
        let edit = VersionEdit {
            new_files: Vec::new(),
            deleted_files: Vec::new(),
            compact_pointers: Vec::new(),
            log_number: None,
            prev_log_number: None,
            next_log_number: None,
            last_sequence: None,
            next_file_number: None,
        };
        assert(edit@.added =~= Seq::<(i32, FileMetaView)>::empty());
        assert(edit@.deleted =~= Set::<(i32, u64)>::empty());
        assert(edit@.pointers =~= Seq::<(i32, InternalKeyView)>::empty());
        edit
    }

    /// Adds a file to a level.
    pub fn add_file(&mut self, level: i32, f: FileMetaData)
        ensures
            final(self)@ == (VersionEditView { added: old(self)@.added.push((level, f@)), ..old(self)@ }),
            old(self).levels_in_range() && 0 <= level < NUM_LEVELS ==> final(self).levels_in_range(),
    {
        let ghost before = self@;
        self.new_files.push((level, f));
        assert(self@.added =~= before.added.push((level, f@)));
    }

    /// Deletes the file of the given number from a level.
    pub fn remove_file(&mut self, level: i32, num: u64)
        ensures
            final(self)@ == (VersionEditView {
                deleted: old(self)@.deleted.insert((level, num)),
                ..old(self)@
            }),
            old(self).levels_in_range() && 0 <= level < NUM_LEVELS ==> final(self).levels_in_range(),
    {
        let ghost before = self@;
        let ghost list = self.deleted_files@;
        self.deleted_files.push((level, num));
        proof {
            assert forall|p: (i32, u64)| self@.deleted.contains(p) == before.deleted.insert(
                (level, num),
            ).contains(p) by {
                let now = self.deleted_files@;
                if list.contains(p) {
                    let i = choose|i: int| 0 <= i < list.len() && list[i] == p;
                    assert(now[i] == p);
                }
                if p == (level, num) {
                    assert(now[now.len() - 1] == p);
                }
                if now.contains(p) {
                    let i = choose|i: int| 0 <= i < now.len() && now[i] == p;
                    if i < list.len() {
                        assert(list[i] == p);
                    }
                }
            }
            assert(self@.deleted =~= before.deleted.insert((level, num)));
        }
    }

    /// Moves the compact pointer of a level to a key.
    pub fn set_compact_pointer(&mut self, level: i32, key: InternalKey)
        ensures
            final(self)@ == (VersionEditView {
                pointers: old(self)@.pointers.push((level, key@)),
                ..old(self)@
            }),
            old(self).levels_in_range() && 0 <= level < NUM_LEVELS ==> final(self).levels_in_range(),
    {
        let ghost before = self@;
        self.compact_pointers.push((level, key));
        assert(self@.pointers =~= before.pointers.push((level, key@)));
    }

    /// Whether the edit deletes the file of the given number from a level.
    pub fn deletes(&self, level: i32, num: u64) -> (r: bool)
        ensures
            r == self@.deleted.contains((level, num)),
    {
        let mut i: usize = 0;
        while i < self.deleted_files.len()
            invariant
                i <= self.deleted_files.len(),
                forall|j: int| 0 <= j < i ==> self.deleted_files@[j] != (level, num),
            decreases self.deleted_files.len() - i,
        {
            if self.deleted_files[i].0 == level && self.deleted_files[i].1 == num {
                assert(self.deleted_files@[i as int] == (level, num));
                return true;
            }
            i = i + 1;
        }
        false
    }
}

// ---------------------------------------------------------------------------
// Applying an edit
// ---------------------------------------------------------------------------

/// The files of a level that an edit does not delete, in their order.
pub open spec fn kept(base: Seq<FileMetaView>, deleted: Set<(i32, u64)>, level: i32) -> Seq<
    FileMetaView,
>
    decreases base.len(),
{
    if base.len() == 0 {
        Seq::empty()
    } else if deleted.contains((level, base.last().num)) {
        kept(base.drop_last(), deleted, level)
    } else {
        kept(base.drop_last(), deleted, level).push(base.last())
    }
}

/// The first place from `i` on that holds a file that `f` sorts before; the
/// length of the list where there is none.
pub open spec fn first_after(list: Seq<FileMetaView>, f: FileMetaView, i: int) -> int
    decreases list.len() - i,
{
    if i < 0 || i >= list.len() {
        list.len() as int
    } else if file_lt(f, list[i]) {
        i
    } else {
        first_after(list, f, i + 1)
    }
}

/// The list with `f` put before the first file that it sorts before.
pub open spec fn insert_sorted(list: Seq<FileMetaView>, f: FileMetaView) -> Seq<FileMetaView> {
    list.insert(first_after(list, f, 0), f)
}

/// The files of a level after an edit: those of the base that the edit
/// does not delete, and each file that the edit adds to the level and does
/// not delete, put in its place in the order of added.
pub open spec fn merged_level(
    base: Seq<FileMetaView>,
    added: Seq<(i32, FileMetaView)>,
    deleted: Set<(i32, u64)>,
    level: i32,
) -> Seq<FileMetaView>
    decreases added.len(),
{
    if added.len() == 0 {
        kept(base, deleted, level)
    } else {
        let before = merged_level(base, added.drop_last(), deleted, level);
        let last = added.last();
        if last.0 == level && !deleted.contains((level, last.1.num)) {
            insert_sorted(before, last.1)
        } else {
            before
        }
    }
}

/// Whether no file of the list sorts before a file that stands before it.
pub open spec fn ordered_by_smallest(files: Seq<FileMetaView>) -> bool {
    forall|i: int, j: int|
        #![trigger files[i], files[j]]
        0 <= i < j < files.len() ==> !file_lt(files[j], files[i])
}

/// The order of files is a strict order in which of two files one sorts
/// before the other unless they have the same place and number.
pub proof fn lemma_file_order(a: FileMetaView, b: FileMetaView, c: FileMetaView)
    ensures
        !file_lt(a, a),
        file_lt(a, b) && file_lt(b, c) ==> file_lt(a, c),
        !file_lt(b, a) && file_lt(b, c) ==> file_lt(a, c),
        file_lt(a, b) && !file_lt(c, b) ==> file_lt(a, c),
        !(file_lt(a, b) && file_lt(b, a)),
{
    lemma_key_order(a.smallest, b.smallest, c.smallest);
    lemma_key_order(b.smallest, a.smallest, c.smallest);
    lemma_key_order(a.smallest, c.smallest, b.smallest);
    lemma_key_order(b.smallest, c.smallest, a.smallest);
    lemma_key_order(c.smallest, b.smallest, a.smallest);
    lemma_key_order(a.smallest, a.smallest, a.smallest);
}

/// The place that `first_after` gives: no file before it is one that `f`
/// sorts before, and the file at it is.
pub proof fn lemma_first_after(list: Seq<FileMetaView>, f: FileMetaView, i: int)
    requires
        0 <= i <= list.len(),
    ensures
        i <= first_after(list, f, i) <= list.len(),
        forall|k: int| i <= k < first_after(list, f, i) ==> !file_lt(f, #[trigger] list[k]),
        first_after(list, f, i) < list.len() ==> file_lt(f, list[first_after(list, f, i)]),
    decreases list.len() - i,
{
    if i < list.len() && !file_lt(f, list[i]) {
        lemma_first_after(list, f, i + 1);
    }
}

/// Leaving files out keeps the order of the rest.
pub proof fn lemma_kept_ordered(base: Seq<FileMetaView>, deleted: Set<(i32, u64)>, level: i32)
    requires
        ordered_by_smallest(base),
    ensures
        ordered_by_smallest(kept(base, deleted, level)),
        forall|i: int|
            0 <= i < kept(base, deleted, level).len() ==> exists|k: int|
                0 <= k < base.len() && base[k] == #[trigger] kept(base, deleted, level)[i],
    decreases base.len(),
{
    if base.len() > 0 {
        let front = base.drop_last();
        assert forall|i: int, j: int|
            #![trigger front[i], front[j]]
            0 <= i < j < front.len() implies !file_lt(front[j], front[i]) by {
            assert(front[i] == base[i] && front[j] == base[j]);
        }
        lemma_kept_ordered(front, deleted, level);
        let before = kept(front, deleted, level);
        let now = kept(base, deleted, level);
        assert forall|i: int| 0 <= i < now.len() implies exists|k: int|
            0 <= k < base.len() && base[k] == #[trigger] now[i] by {
            if i < before.len() {
                let k = choose|k: int| 0 <= k < front.len() && front[k] == before[i];
                assert(base[k] == now[i]);
            } else {
                assert(base[base.len() - 1] == now[i]);
            }
        }
        assert forall|i: int, j: int|
            #![trigger now[i], now[j]]
            0 <= i < j < now.len() implies !file_lt(now[j], now[i]) by {
            if j < before.len() {
                assert(now[i] == before[i] && now[j] == before[j]);
            } else {
                let k = choose|k: int| 0 <= k < front.len() && front[k] == before[i];
                assert(base[k] == now[i]);
                assert(now[j] == base[base.len() - 1]);
            }
        }
    }
}

/// Putting a file in its place keeps a list in order.
pub proof fn lemma_insert_sorted_ordered(list: Seq<FileMetaView>, f: FileMetaView)
    requires
        ordered_by_smallest(list),
    ensures
        ordered_by_smallest(insert_sorted(list, f)),
{
    let at = first_after(list, f, 0);
    lemma_first_after(list, f, 0);
    let now = insert_sorted(list, f);
    assert forall|i: int, j: int|
        #![trigger now[i], now[j]]
        0 <= i < j < now.len() implies !file_lt(now[j], now[i]) by {
        if j < at {
            assert(now[i] == list[i] && now[j] == list[j]);
        } else if j == at {
            assert(now[i] == list[i]);
        } else if i < at {
            assert(now[i] == list[i] && now[j] == list[j - 1]);
        } else if i == at {
            assert(now[j] == list[j - 1]);
            if at < j - 1 {
                assert(!file_lt(list[j - 1], list[at]));
            }
            lemma_file_order(list[j - 1], f, list[at]);
            lemma_file_order(f, list[at], f);
        } else {
            assert(now[i] == list[i - 1] && now[j] == list[j - 1]);
        }
    }
}

/// Applying an edit to a level whose files are in order by smallest key
/// leaves them in order.
pub proof fn lemma_merged_level_ordered(
    base: Seq<FileMetaView>,
    added: Seq<(i32, FileMetaView)>,
    deleted: Set<(i32, u64)>,
    level: i32,
)
    requires
        ordered_by_smallest(base),
    ensures
        ordered_by_smallest(merged_level(base, added, deleted, level)),
    decreases added.len(),
{
    if added.len() == 0 {
        lemma_kept_ordered(base, deleted, level);
    } else {
        lemma_merged_level_ordered(base, added.drop_last(), deleted, level);
        let before = merged_level(base, added.drop_last(), deleted, level);
        if added.last().0 == level && !deleted.contains((level, added.last().1.num)) {
            lemma_insert_sorted_ordered(before, added.last().1);
        }
    }
}

/// The files that are kept are those of the base that the edit does not
/// delete.
pub proof fn lemma_kept_members(
    base: Seq<FileMetaView>,
    deleted: Set<(i32, u64)>,
    level: i32,
    f: FileMetaView,
)
    ensures
        kept(base, deleted, level).contains(f) <==> base.contains(f) && !deleted.contains(
            (level, f.num),
        ),
    decreases base.len(),
{
    if base.len() > 0 {
        let front = base.drop_last();
        let last = base.last();
        lemma_kept_members(front, deleted, level, f);
        let before = kept(front, deleted, level);
        let now = kept(base, deleted, level);
        if front.contains(f) {
            let k = choose|k: int| 0 <= k < front.len() && front[k] == f;
            assert(base[k] == f);
        }
        if base.contains(f) {
            let k = choose|k: int| 0 <= k < base.len() && base[k] == f;
            if k < front.len() {
                assert(front[k] == f);
            }
        }
        if !deleted.contains((level, last.num)) {
            assert(now == before.push(last));
            if before.contains(f) {
                let k = choose|k: int| 0 <= k < before.len() && before[k] == f;
                assert(now[k] == f);
            }
            if last == f {
                assert(now[now.len() - 1] == f);
            }
            if now.contains(f) {
                let k = choose|k: int| 0 <= k < now.len() && now[k] == f;
                if k < before.len() {
                    assert(before[k] == f);
                }
            }
        }
    }
}

/// The files of a level after an edit are the files of the base and the
/// files that the edit adds to the level, without those that it deletes.
pub proof fn lemma_merged_level_members(
    base: Seq<FileMetaView>,
    added: Seq<(i32, FileMetaView)>,
    deleted: Set<(i32, u64)>,
    level: i32,
    f: FileMetaView,
)
    ensures
        merged_level(base, added, deleted, level).contains(f) <==> (base.contains(f)
            || added.contains((level, f))) && !deleted.contains((level, f.num)),
    decreases added.len(),
{
    if added.len() == 0 {
        lemma_kept_members(base, deleted, level, f);
    } else {
        let front = added.drop_last();
        let last = added.last();
        lemma_merged_level_members(base, front, deleted, level, f);
        let before = merged_level(base, front, deleted, level);
        let now = merged_level(base, added, deleted, level);
        if front.contains((level, f)) {
            let k = choose|k: int| 0 <= k < front.len() && front[k] == (level, f);
            assert(added[k] == (level, f));
        }
        if added.contains((level, f)) {
            let k = choose|k: int| 0 <= k < added.len() && added[k] == (level, f);
            if k < front.len() {
                assert(front[k] == (level, f));
            }
        }
        if last == (level, f) {
            assert(added[added.len() - 1] == (level, f));
        }
        if last.0 == level && !deleted.contains((level, last.1.num)) {
            let at = first_after(before, last.1, 0);
            lemma_first_after(before, last.1, 0);
            assert(now == before.insert(at, last.1));
            if before.contains(f) {
                let k = choose|k: int| 0 <= k < before.len() && before[k] == f;
                if k < at {
                    assert(now[k] == f);
                } else {
                    assert(now[k + 1] == f);
                }
            }
            if last.1 == f {
                assert(now[at] == f);
            }
            if now.contains(f) {
                let k = choose|k: int| 0 <= k < now.len() && now[k] == f;
                if k < at {
                    assert(before[k] == f);
                } else if k > at {
                    assert(before[k - 1] == f);
                }
            }
        }
    }
}

/// The score of a level: at level 0 the number of files over the trigger,
/// deeper the bytes of the files over the capacity of the level.
pub open spec fn level_score(files: Seq<FileMetaView>, level: int) -> Score {
    if level == 0 {
        Score { amount: files.len() as u128, limit: 4 }
    } else {
        Score { amount: total_size(files) as u128, limit: level_capacity(level) as u64 }
    }
}

/// The level with the greatest score among the first `upto` levels; of
/// levels with the same score the first.
pub open spec fn best_level(levels: Seq<Seq<FileMetaView>>, upto: int) -> int
    decreases upto,
{
    if upto <= 1 {
        0
    } else {
        let best = best_level(levels, upto - 1);
        if score_gt(level_score(levels[upto - 1], upto - 1), level_score(levels[best], best)) {
            upto - 1
        } else {
            best
        }
    }
}

/// The capacity of a level is at least ten mebibytes and fits 64 bits.
pub proof fn lemma_level_capacity_bounds(level: int)
    ensures
        10485760 <= level_capacity(level) <= u64::MAX,
    decreases level,
{
    if level > 1 {
        lemma_level_capacity_bounds(level - 1);
    }
}

/// Comparing two fractions by their whole parts, and by their remainders
/// where the whole parts are the same, compares the fractions.
pub proof fn lemma_score_compare(a: int, b: int, c: int, d: int)
    requires
        a >= 0,
        c >= 0,
        b > 0,
        d > 0,
    ensures
        a / b > c / d ==> a * d > c * b,
        a / b < c / d ==> a * d < c * b,
        a / b == c / d ==> (a * d > c * b <==> (a % b) * d > (c % d) * b),
        0 <= a % b < b,
        0 <= c % d < d,
        (a % b) * d < b * d,
        (c % d) * b < b * d,
{
    let qa = a / b;
    let ra = a % b;
    let qc = c / d;
    let rc = c % d;
    vstd::arithmetic::div_mod::lemma_fundamental_div_mod(a, b);
    vstd::arithmetic::div_mod::lemma_fundamental_div_mod(c, d);
    vstd::arithmetic::div_mod::lemma_mod_bound(a, b);
    vstd::arithmetic::div_mod::lemma_mod_bound(c, d);
    assert(a == b * qa + ra);
    assert(c == d * qc + rc);
    assert(ra * d < b * d) by (nonlinear_arith)
        requires
            0 <= ra < b,
            d > 0,
    ;
    assert(rc * b < b * d) by (nonlinear_arith)
        requires
            0 <= rc < d,
            b > 0,
    ;
    assert(a * d == qa * (b * d) + ra * d) by (nonlinear_arith)
        requires
            a == b * qa + ra,
    ;
    assert(c * b == qc * (b * d) + rc * b) by (nonlinear_arith)
        requires
            c == d * qc + rc,
    ;
    if qa > qc {
        assert(qa * (b * d) >= qc * (b * d) + b * d) by (nonlinear_arith)
            requires
                qa >= qc + 1,
                b * d > 0,
        ;
    }
    if qa < qc {
        assert(qc * (b * d) >= qa * (b * d) + b * d) by (nonlinear_arith)
            requires
                qc >= qa + 1,
                b * d > 0,
        ;
    }
    assert(b * d > 0) by (nonlinear_arith)
        requires
            b > 0,
            d > 0,
    ;
    assert(ra * d >= 0) by (nonlinear_arith)
        requires
            ra >= 0,
            d > 0,
    ;
    assert(rc * b >= 0) by (nonlinear_arith)
        requires
            rc >= 0,
            b > 0,
    ;
}

/// Whether the score `a` is greater than the score `b`.
pub fn score_greater(a: Score, b: Score) -> (r: bool)
    requires
        a.limit > 0,
        b.limit > 0,
    ensures
        r == score_gt(a, b),
{
    proof {
        lemma_score_compare(a.amount as int, a.limit as int, b.amount as int, b.limit as int);
    }
    let qa: u128 = a.amount / (a.limit as u128);
    let qb: u128 = b.amount / (b.limit as u128);
    if qa != qb {
        qa > qb
    } else {
        let ra: u128 = a.amount % (a.limit as u128);
        let rb: u128 = b.amount % (b.limit as u128);
        assert(ra * b.limit < a.limit * b.limit <= u128::MAX) by (nonlinear_arith)
            requires
                ra * b.limit < a.limit * b.limit,
                a.limit <= u64::MAX,
                b.limit <= u64::MAX,
        ;
        assert(rb * a.limit < a.limit * b.limit <= u128::MAX) by (nonlinear_arith)
            requires
                rb * a.limit < a.limit * b.limit,
                a.limit <= u64::MAX,
                b.limit <= u64::MAX,
        ;
        ra * (b.limit as u128) > rb * (a.limit as u128)
    }
}

/// A copy of a list of files.
pub fn clone_files(files: &Vec<FileMetaData>) -> (copy: Vec<FileMetaData>)
    ensures
        metas(copy@) == metas(files@),
{
    let mut copy: Vec<FileMetaData> = Vec::new();
    let mut i: usize = 0;
    while i < files.len()
        invariant
            i <= files.len(),
            copy@.len() == i,
            forall|j: int| 0 <= j < i ==> (#[trigger] copy@[j])@ == files@[j]@,
        decreases files.len() - i,
    {
        copy.push(files[i].clone());
        i = i + 1;
    }
    assert(metas(copy@) =~= metas(files@));
    copy
}

/// The files of a level after an edit.
pub fn merge_level(base: &Vec<FileMetaData>, edit: &VersionEdit, level: i32) -> (out: Vec<
    FileMetaData,
>)
    ensures
        metas(out@) == merged_level(metas(base@), edit@.added, edit@.deleted, level),
{
    let mut out: Vec<FileMetaData> = Vec::new();
    let ghost all = metas(base@);
    let ghost added = edit@.added;
    let ghost deleted = edit@.deleted;
    let mut i: usize = 0;
    assert(all.take(0) =~= Seq::<FileMetaView>::empty());
    assert(metas(out@) =~= Seq::<FileMetaView>::empty());
    while i < base.len()
        invariant
            i <= base.len(),
            all == metas(base@),
            deleted == edit@.deleted,
            metas(out@) == kept(all.take(i as int), deleted, level),
        decreases base.len() - i,
    {
        assert(all.take(i + 1).drop_last() =~= all.take(i as int));
        assert(all.take(i + 1).last() == base@[i as int]@);
        if !edit.deletes(level, base[i].num) {
            let ghost before = metas(out@);
            out.push(base[i].clone());
            assert(metas(out@) =~= before.push(base@[i as int]@));
        }
        i = i + 1;
    }
    assert(all.take(i as int) =~= all);
    let mut j: usize = 0;
    assert(added.take(0) =~= Seq::<(i32, FileMetaView)>::empty());
    while j < edit.new_files.len()
        invariant
            j <= edit.new_files.len(),
            all == metas(base@),
            added == edit@.added,
            deleted == edit@.deleted,
            metas(out@) == merged_level(all, added.take(j as int), deleted, level),
        decreases edit.new_files.len() - j,
    {
        assert(added.take(j + 1).drop_last() =~= added.take(j as int));
        assert(added.take(j + 1).last() == (edit.new_files@[j as int].0, edit.new_files@[j as int].1@));
        if edit.new_files[j].0 == level && !edit.deletes(level, edit.new_files[j].1.num) {
            let f = edit.new_files[j].1.clone();
            let ghost list = metas(out@);
            let mut at: usize = 0;
            while at < out.len() && !f.sorts_before(&out[at])
                invariant
                    at <= out.len(),
                    list == metas(out@),
                    first_after(list, f@, 0) == first_after(list, f@, at as int),
                decreases out.len() - at,
            {
                at = at + 1;
            }
            out.insert(at, f);
            assert(metas(out@) =~= list.insert(at as int, f@));
        }
        j = j + 1;
    }
    assert(added.take(j as int) =~= added);
    out
}

/// Whether each file of the list starts after the file before it ends, and
/// no file ends before it starts.
pub fn is_disjoint_ascending(files: &Vec<FileMetaData>) -> (r: bool)
    ensures
        r == disjoint_ascending(metas(files@)),
{
    let ghost all = metas(files@);
    let mut i: usize = 0;
    while i < files.len()
        invariant
            i <= files.len(),
            all == metas(files@),
            forall|a: int| 0 <= a < i ==> key_le((#[trigger] all[a]).smallest, all[a].largest),
            forall|a: int, b: int|
                #![trigger all[a], all[b]]
                0 <= a < b < i ==> key_lt(all[a].largest, all[b].smallest),
        decreases files.len() - i,
    {
        if files[i].largest_key.precedes(&files[i].smallest_key) {
            proof {
                lemma_key_order(all[i as int].largest, all[i as int].smallest, all[i as int].largest);
                assert(!key_le(all[i as int].smallest, all[i as int].largest));
            }
            return false;
        }
        proof {
            lemma_key_order(all[i as int].largest, all[i as int].smallest, all[i as int].largest);
        }
        if i > 0 {
            if !files[i - 1].largest_key.precedes(&files[i].smallest_key) {
                assert(!key_lt(all[i - 1].largest, all[i as int].smallest));
                return false;
            }
            proof {
                assert forall|a: int| 0 <= a < i implies key_lt(
                    (#[trigger] all[a]).largest,
                    all[i as int].smallest,
                ) by {
                    if a < i - 1 {
                        assert(key_lt(all[a].largest, all[i - 1].smallest));
                        lemma_key_order(all[a].largest, all[i - 1].smallest, all[i - 1].largest);
                        lemma_key_order(all[a].largest, all[i - 1].largest, all[i as int].smallest);
                    }
                }
            }
        }
        i = i + 1;
    }
    true
}

// ---------------------------------------------------------------------------
// The version set
// ---------------------------------------------------------------------------

/// The compact pointers as mathematical values.
pub open spec fn pointer_views(ptrs: Seq<Option<InternalKey>>) -> Seq<Option<InternalKeyView>> {
    ptrs.map_values(
        |p: Option<InternalKey>|
            match p {
                Some(k) => Some(k@),
                None => None,
            },
    )
}

/// The compact pointers after the moves of an edit, applied in order.
pub open spec fn moved_pointers(
    ptrs: Seq<Option<InternalKeyView>>,
    moves: Seq<(i32, InternalKeyView)>,
) -> Seq<Option<InternalKeyView>>
    decreases moves.len(),
{
    if moves.len() == 0 {
        ptrs
    } else {
        moved_pointers(ptrs, moves.drop_last()).update(
            moves.last().0 as int,
            Some(moves.last().1),
        )
    }
}

/// An edit with the numbers it leaves open taken from the set.
pub open spec fn filled(
    edit: VersionEditView,
    log_number: u64,
    prev_log_number: u64,
    next_file_number: u64,
    last_sequence: u64,
) -> VersionEditView {
    VersionEditView {
        log_number: Some(
            match edit.log_number {
                Some(n) => n,
                None => log_number,
            },
        ),
        prev_log_number: Some(
            match edit.prev_log_number {
                Some(n) => n,
                None => prev_log_number,
            },
        ),
        next_file_number: Some(
            match edit.next_file_number {
                Some(n) => n,
                None => next_file_number,
            },
        ),
        last_sequence: Some(
            match edit.last_sequence {
                Some(n) => n,
                None => last_sequence,
            },
        ),
        ..edit
    }
}

/// The files of each level after an edit.
pub open spec fn merged_levels(base: Seq<Seq<FileMetaView>>, edit: VersionEditView) -> Seq<
    Seq<FileMetaView>,
> {
    Seq::new(base.len(), |l: int| merged_level(base[l], edit.added, edit.deleted, l as i32))
}

/// Whether the levels from the first on are disjoint and ascending.
pub open spec fn levels_disjoint(levels: Seq<Seq<FileMetaView>>) -> bool {
    forall|l: int| 1 <= l < levels.len() ==> disjoint_ascending(#[trigger] levels[l])
}

/// The first file from `i` on that ends after the compact pointer, or
/// the first file of the level where the pointer is past them all or there
/// is no pointer.
pub open spec fn seed_index(files: Seq<FileMetaView>, ptr: Option<InternalKeyView>, i: int) -> int
    decreases files.len() - i,
{
    if i < 0 || i >= files.len() {
        0
    } else if ptr is None || key_lt(ptr.unwrap(), files[i].largest) {
        i
    } else {
        seed_index(files, ptr, i + 1)
    }
}

/// The least smallest user key of the files; of no files, the empty key.
pub open spec fn range_lo(files: Seq<FileMetaView>) -> Seq<char>
    decreases files.len(),
{
    if files.len() == 0 {
        Seq::empty()
    } else if files.len() == 1 {
        files[0].smallest.user_key
    } else if user_key_lt(files.last().smallest.user_key, range_lo(files.drop_last())) {
        files.last().smallest.user_key
    } else {
        range_lo(files.drop_last())
    }
}

/// The greatest largest user key of the files; of no files, the empty key.
pub open spec fn range_hi(files: Seq<FileMetaView>) -> Seq<char>
    decreases files.len(),
{
    if files.len() == 0 {
        Seq::empty()
    } else if files.len() == 1 {
        files[0].largest.user_key
    } else if user_key_lt(range_hi(files.drop_last()), files.last().largest.user_key) {
        files.last().largest.user_key
    } else {
        range_hi(files.drop_last())
    }
}

/// The range of user keys that a list of files spans.
pub fn range_of(files: &Vec<FileMetaData>) -> (r: (String, String))
    ensures
        r.0@ == range_lo(metas(files@)),
        r.1@ == range_hi(metas(files@)),
{
    let ghost all = metas(files@);
    if files.len() == 0 {
        let lo = String::new();
        let hi = String::new();
        return (lo, hi);
    }
    let mut lo: String = files[0].smallest_key.user_key.clone();
    let mut hi: String = files[0].largest_key.user_key.clone();
    let mut i: usize = 1;
    assert(all.take(1).len() == 1);
    while i < files.len()
        invariant
            1 <= i <= files.len(),
            all == metas(files@),
            lo@ == range_lo(all.take(i as int)),
            hi@ == range_hi(all.take(i as int)),
        decreases files.len() - i,
    {
        assert(all.take(i + 1).drop_last() =~= all.take(i as int));
        assert(all.take(i + 1).last() == all[i as int]);
        if user_key_less(files[i].smallest_key.user_key.as_str(), lo.as_str()) {
            lo = files[i].smallest_key.user_key.clone();
        }
        if user_key_less(hi.as_str(), files[i].largest_key.user_key.as_str()) {
            hi = files[i].largest_key.user_key.clone();
        }
        i = i + 1;
    }
    assert(all.take(i as int) =~= all);
    (lo, hi)
}

/// The level that the next compaction compacts: the scored level where a
/// compaction for size is due, else the level of the file to compact.
pub open spec fn picked_level(set: VersionSet) -> i32 {
    if score_at_least_one(set.current().compaction_score) {
        set.current().compaction_level
    } else {
        set.current().file_to_compact_level
    }
}

/// The file that the next compaction starts from.
pub open spec fn picked_seed(set: VersionSet) -> FileMetaView {
    if score_at_least_one(set.current().compaction_score) {
        set.current().level(picked_level(set) as int)[seed_index(
            set.current().level(picked_level(set) as int),
            pointer_views(set.compact_pointer@)[picked_level(set) as int],
            0,
        )]
    } else {
        set.current().file_to_compact.unwrap()@
    }
}

/// The place that `seed_index` gives lies within a level that holds a
/// file.
pub proof fn lemma_seed_index_bounds(files: Seq<FileMetaView>, ptr: Option<InternalKeyView>, i: int)
    requires
        0 <= i,
        files.len() > 0,
    ensures
        0 <= seed_index(files, ptr, i) < files.len(),
    decreases files.len() - i,
{
    if i < files.len() && !(ptr is None || key_lt(ptr.unwrap(), files[i].largest)) {
        lemma_seed_index_bounds(files, ptr, i + 1);
    }
}

/// The file that a compaction for size starts from is a file of the scored
/// level.
pub proof fn lemma_picked_seed_is_a_file(set: VersionSet)
    requires
        set.wf(),
        score_at_least_one(set.current().compaction_score),
    ensures
        set.current().level(picked_level(set) as int).contains(picked_seed(set)),
{
    let files = set.current().level(picked_level(set) as int);
    let at = seed_index(files, pointer_views(set.compact_pointer@)[picked_level(set) as int], 0);
    lemma_seed_index_bounds(
        files,
        pointer_views(set.compact_pointer@)[picked_level(set) as int],
        0,
    );
    assert(files[at] == picked_seed(set));
}

/// Whether `c` is the compaction that is picked for the current version of
/// the set: its level, its three lists of inputs, and a fresh state.
pub open spec fn is_picked(set: VersionSet, c: Compaction) -> bool {
    let cur = set.current();
    let level = picked_level(set);
    let seed = picked_seed(set);
    let first = if level == 0 {
        overlapping(
            cur.level(0),
            widened(cur.level(0), seed.smallest.user_key, seed.largest.user_key, 0).0,
            widened(cur.level(0), seed.smallest.user_key, seed.largest.user_key, 0).1,
        )
    } else {
        seq![seed]
    };
    let second = overlapping(cur.level(level + 1), range_lo(first), range_hi(first));
    let both = first + second;
    &&& c.wf()
    &&& c.level == level
    &&& 0 <= level < NUM_LEVELS - 1
    &&& c.input_files(0) == first
    &&& c.input_files(1) == second
    &&& c.input_files(2) == (if level + 2 < NUM_LEVELS {
        overlapping(cur.level(level + 2), range_lo(both), range_hi(both))
    } else {
        Seq::<FileMetaView>::empty()
    })
    &&& c.version is Some
    &&& c.version.unwrap().levels() == cur.levels()
    &&& c.grandparent_idx == 0
    &&& c.overlapped_bytes == 0
    &&& !c.seen_key
    &&& c.edit@ == empty_edit()
    &&& c.edit.levels_in_range()
    &&& c.max_output_file_size == default_options().max_file_size
}

impl Version {
    /// A copy of the version.
    pub fn duplicate(&self) -> (v: Version)
        requires
            self.wf(),
        ensures
            v.wf(),
            v.levels() == self.levels(),
            v.compaction_score == self.compaction_score,
            v.compaction_level == self.compaction_level,
            v.file_to_compact_level == self.file_to_compact_level,
            v.file_to_compact is Some <==> self.file_to_compact is Some,
            v.file_to_compact is Some ==> v.file_to_compact.unwrap()@
                == self.file_to_compact.unwrap()@,
    {
        let mut files: Vec<Vec<FileMetaData>> = Vec::new();
        let mut l: usize = 0;
        while l < self.files.len()
            invariant
                l <= self.files@.len(),
                files@.len() == l,
                forall|k: int| 0 <= k < l ==> metas((#[trigger] files@[k])@) == self.level(k),
            decreases self.files@.len() - l,
        {
            files.push(clone_files(&self.files[l]));
            l = l + 1;
        }
        let file_to_compact = match &self.file_to_compact {
            Some(f) => Some(f.clone()),
            None => None,
        };
        let v = Version {
            files,
            compaction_score: self.compaction_score,
            compaction_level: self.compaction_level,
            file_to_compact,
            file_to_compact_level: self.file_to_compact_level,
        };
        proof {
            assert forall|k: int| 0 <= k < NUM_LEVELS implies #[trigger] v.level(k) == self.level(
                k,
            ) by {
                assert(metas(v.files@[k]@) == self.level(k));
            }
            assert(v.levels() =~= self.levels());
        }
        v
    }
}

/// The chain of versions with the numbers that the next edit starts from.
#[derive(Debug)]
pub struct VersionSet {
    /// Every version that was published, the current one last.
    pub versions: Vec<Version>,
    pub last_sequence: u64,
    pub log_number: u64,
    pub prev_log_number: u64,
    pub next_file_number: u64,
    /// For each level, the key at which the next compaction of the level
    /// starts.
    pub compact_pointer: Vec<Option<InternalKey>>,
    /// Every edit that was applied, in order, with its numbers filled in.
    pub journal: Vec<VersionEdit>,
}

impl VersionSet {
    /// The current version.
    pub open spec fn current(&self) -> Version {
        self.versions@.last()
    }

    /// The edits that were applied, as mathematical values.
    pub open spec fn journal_views(&self) -> Seq<VersionEditView> {
        self.journal@.map_values(|e: VersionEdit| e@)
    }

    /// There is a current version, every version is well formed, and each
    /// level has a compact pointer.
    pub open spec fn wf(&self) -> bool {
        &&& self.versions@.len() >= 1
        &&& forall|i: int| 0 <= i < self.versions@.len() ==> (#[trigger] self.versions@[i]).wf()
        &&& self.compact_pointer@.len() == NUM_LEVELS
    }

    /// A set with one version without files.
    pub fn new() -> (set: VersionSet)
        ensures
            set.wf(),
            set.versions@.len() == 1,
            forall|l: int| 0 <= l < NUM_LEVELS ==> (#[trigger] set.current().level(l)).len() == 0,
            set.last_sequence == 0,
            set.log_number == 0,
            set.prev_log_number == 0,
            set.next_file_number == 1,
            set.journal@.len() == 0,
            set.current().file_to_compact is None,
            !score_at_least_one(set.current().compaction_score),
            forall|l: int| 0 <= l < NUM_LEVELS ==> (#[trigger] set.compact_pointer@[l]) is None,
    {
        let mut versions: Vec<Version> = Vec::new();
        versions.push(Version::new());
        let mut compact_pointer: Vec<Option<InternalKey>> = Vec::new();
        let mut l: i32 = 0;
        while l < NUM_LEVELS
            invariant
                0 <= l <= NUM_LEVELS,
                compact_pointer@.len() == l,
                forall|k: int| 0 <= k < l ==> (#[trigger] compact_pointer@[k]) is None,
            decreases NUM_LEVELS - l,
        {
            compact_pointer.push(None);
            l = l + 1;
        }
        VersionSet {
            versions,
            last_sequence: 0,
            log_number: 0,
            prev_log_number: 0,
            next_file_number: 1,
            compact_pointer,
            journal: Vec::new(),
        }
    }

    /// The sequence number of the latest write.
    pub fn last_sequence(&self) -> (n: u64)
        ensures
            n == self.last_sequence,
    {
        self.last_sequence
    }

    /// Sets the sequence number of the latest write.
    pub fn set_last_sequence(&mut self, n: u64)
        ensures
            *final(self) == (VersionSet { last_sequence: n, ..*old(self) }),
    {
        self.last_sequence = n;
    }

    /// How many files a level of the current version holds.
    pub fn current_num_level_files(&self, level: i32) -> (n: u64)
        requires
            self.wf(),
            0 <= level < NUM_LEVELS,
        ensures
            n == self.current().level(level as int).len(),
    {
        let current = &self.versions[self.versions.len() - 1];
        current.files[level as usize].len() as u64
    }

    /// Hands out the next file number; the numbers handed out ascend.
    pub fn new_file_number(&mut self) -> (n: u64)
        requires
            old(self).next_file_number < u64::MAX,
        ensures
            n == old(self).next_file_number,
            *final(self) == (VersionSet { next_file_number: (n + 1) as u64, ..*old(self) }),
    {
        let n = self.next_file_number;
        self.next_file_number = n + 1;
        n
    }

    /// Publishes a version as the current one.
    pub fn append_version(&mut self, v: Version)
        requires
            old(self).wf(),
            v.wf(),
        ensures
            final(self).wf(),
            final(self).versions@ == old(self).versions@.push(v),
            final(self).current() == v,
            final(self).last_sequence == old(self).last_sequence,
            final(self).log_number == old(self).log_number,
            final(self).prev_log_number == old(self).prev_log_number,
            final(self).next_file_number == old(self).next_file_number,
            final(self).compact_pointer == old(self).compact_pointer,
            final(self).journal == old(self).journal,
    {
        self.versions.push(v);
    }

    /// Applies an edit to the current version and publishes the outcome.
    ///
    /// The numbers that the edit leaves open are taken from the set. Each
    /// level of the new version holds the files of the current one that the
    /// edit does not delete and the files that the edit adds to the level,
    /// ordered by smallest key. The new version names the level with the
    /// greatest compaction score. The compact pointers that the edit moves
    /// are moved, and the edit is appended to the journal.
    ///
    /// Fails with `Corrupt`, changing nothing, exactly when a level from
    /// the first on would hold files that overlap or are out of order.
    pub fn log_and_apply(&mut self, edit: VersionEdit) -> (r: Result<(), KVSError>)
        requires
            old(self).wf(),
            edit.levels_in_range(),
        ensures
            final(self).wf(),
            levels_disjoint(merged_levels(old(self).current().levels(), edit@)) ==> {
                &&& r is Ok
                &&& final(self).versions@.len() == old(self).versions@.len() + 1
                &&& forall|i: int|
                    0 <= i < old(self).versions@.len() ==> #[trigger] final(self).versions@[i] == old(
                        self,
                    ).versions@[i]
                &&& final(self).current().levels() == merged_levels(
                    old(self).current().levels(),
                    edit@,
                )
                &&& final(self).current().compaction_level == best_level(
                    final(self).current().levels(),
                    NUM_LEVELS - 1,
                )
                &&& final(self).current().compaction_score == level_score(
                    final(self).current().level(final(self).current().compaction_level as int),
                    final(self).current().compaction_level as int,
                )
                &&& final(self).current().file_to_compact is None
                &&& pointer_views(final(self).compact_pointer@) == moved_pointers(
                    pointer_views(old(self).compact_pointer@),
                    edit@.pointers,
                )
                &&& final(self).journal_views() == old(self).journal_views().push(
                    filled(
                        edit@,
                        old(self).log_number,
                        old(self).prev_log_number,
                        old(self).next_file_number,
                        old(self).last_sequence,
                    ),
                )
                &&& final(self).last_sequence == old(self).last_sequence
                &&& final(self).log_number == old(self).log_number
                &&& final(self).prev_log_number == old(self).prev_log_number
                &&& final(self).next_file_number == old(self).next_file_number
            },
            !levels_disjoint(merged_levels(old(self).current().levels(), edit@)) ==> r == Err::<
                (),
                KVSError,
            >(KVSError::Corrupt) && *final(self) == *old(self),
    {
        let ghost given = edit@;
        let mut working = edit;
        let ghost base = self.current().levels();
        let ghost target = merged_levels(base, given);
        // Build the files of each level of the new version.
        let mut files: Vec<Vec<FileMetaData>> = Vec::new();
        let mut level: i32 = 0;
        while level < NUM_LEVELS
            invariant
                0 <= level <= NUM_LEVELS,
                self.wf(),
                *self == *old(self),
                working@ == given,
                given == edit@,
                base == self.current().levels(),
                target == merged_levels(base, given),
                files@.len() == level,
                forall|l: int| 0 <= l < level ==> metas((#[trigger] files@[l])@) == target[l],
                forall|l: int| 1 <= l < level ==> disjoint_ascending(#[trigger] target[l]),
            decreases NUM_LEVELS - level,
        {
            let current = &self.versions[self.versions.len() - 1];
            let merged = merge_level(&current.files[level as usize], &working, level);
            assert(metas(merged@) == target[level as int]);
            if level >= 1 && !is_disjoint_ascending(&merged) {
                assert(!disjoint_ascending(target[level as int]));
                assert(target.len() == NUM_LEVELS);
                assert(!levels_disjoint(target));
                return Err(KVSError::Corrupt);
            }
            files.push(merged);
            level = level + 1;
        }
        assert(levels_disjoint(target));
        // Find the level with the greatest score.
        let ghost built: Seq<Seq<FileMetaView>> = Seq::new(
            NUM_LEVELS as nat,
            |l: int| metas(files@[l]@),
        );
        assert(built =~= target);
        let mut best_at: i32 = 0;
        let mut best_score: Score = Score { amount: files[0].len() as u128, limit: 4 };
        let mut at: i32 = 1;
        while at < NUM_LEVELS - 1
            invariant
                1 <= at <= NUM_LEVELS - 1,
                files@.len() == NUM_LEVELS,
                built == Seq::new(NUM_LEVELS as nat, |l: int| metas(files@[l]@)),
                0 <= best_at < at,
                best_at == best_level(built, at as int),
                best_score == level_score(built[best_at as int], best_at as int),
                best_score.limit > 0,
            decreases NUM_LEVELS - 1 - at,
        {
            proof {
                lemma_level_capacity_bounds(at as int);
            }
            let score = Score {
                amount: total_file_size(&files[at as usize]),
                limit: max_bytes_for_level(at),
            };
            assert(score == level_score(built[at as int], at as int));
            if score_greater(score, best_score) {
                best_at = at;
                best_score = score;
            }
            at = at + 1;
        }
        proof {
            if score_at_least_one(best_score) {
                if best_at == 0 {
                    assert(built[0].len() >= 4);
                } else {
                    lemma_level_capacity_bounds(best_at as int);
                    assert(total_size(built[best_at as int]) > 0);
                    assert(built[best_at as int].len() > 0);
                }
            }
        }
        let v = Version {
            files,
            compaction_score: best_score,
            compaction_level: best_at,
            file_to_compact: None,
            file_to_compact_level: -1,
        };
        proof {
            assert(v.levels() =~= target);
            assert forall|l: int| 1 <= l < NUM_LEVELS implies disjoint_ascending(
                #[trigger] v.level(l),
            ) by {
                assert(v.level(l) == target[l]);
            }
            assert(v.level(best_at as int) == built[best_at as int]);
        }
        // Fill in the numbers that the edit leaves open.
        if working.log_number.is_none() {
            working.log_number = Some(self.log_number);
        }
        if working.prev_log_number.is_none() {
            working.prev_log_number = Some(self.prev_log_number);
        }
        if working.next_file_number.is_none() {
            working.next_file_number = Some(self.next_file_number);
        }
        if working.last_sequence.is_none() {
            working.last_sequence = Some(self.last_sequence);
        }
        assert(working@ == filled(
            given,
            self.log_number,
            self.prev_log_number,
            self.next_file_number,
            self.last_sequence,
        ));
        // Move the compact pointers.
        let ghost ptrs = pointer_views(self.compact_pointer@);
        let ghost moves = given.pointers;
        let mut i: usize = 0;
        assert(moves.take(0) =~= Seq::<(i32, InternalKeyView)>::empty());
        while i < working.compact_pointers.len()
            invariant
                i <= working.compact_pointers@.len(),
                working.levels_in_range(),
                moves == working@.pointers,
                self.compact_pointer@.len() == NUM_LEVELS,
                pointer_views(self.compact_pointer@) == moved_pointers(ptrs, moves.take(i as int)),
                self.versions == old(self).versions,
                self.journal == old(self).journal,
                self.last_sequence == old(self).last_sequence,
                self.log_number == old(self).log_number,
                self.prev_log_number == old(self).prev_log_number,
                self.next_file_number == old(self).next_file_number,
            decreases working.compact_pointers@.len() - i,
        {
            let at = working.compact_pointers[i].0;
            let key = working.compact_pointers[i].1.clone();
            let ghost before = pointer_views(self.compact_pointer@);
            assert(moves.take(i + 1).drop_last() =~= moves.take(i as int));
            assert(moves.take(i + 1).last() == (at, key@));
            self.compact_pointer.set(at as usize, Some(key));
            assert(pointer_views(self.compact_pointer@) =~= before.update(at as int, Some(key@)));
            i = i + 1;
        }
        assert(moves.take(i as int) =~= moves);
        // Publish.
        let ghost journal_before = self.journal_views();
        let ghost filled_edit = working@;
        self.journal.push(working);
        assert(self.journal_views() =~= journal_before.push(filled_edit));
        self.versions.push(v);
        Ok(())
    }

    /// Picks the next compaction, or nothing where none is due.
    ///
    /// A compaction for size is due where the score of the current version
    /// is one or more: it starts from the first file of the scored level
    /// that ends after the level's compact pointer, or from the first file
    /// of the level where there is none. Else a compaction for seeks is due
    /// where the version names a file to compact. At level 0 the input is
    /// widened to every file of the level that meets the range of the file.
    /// The files of the next level that meet the range of the input are the
    /// second input, and the files of the level after it that meet the
    /// range of both are the grandparents.
    pub fn pick_compaction(&self) -> (r: Option<Compaction>)
        requires
            self.wf(),
        ensures
            r is None <==> !score_at_least_one(self.current().compaction_score)
                && self.current().file_to_compact is None,
            r is Some ==> is_picked(*self, r.unwrap()),
    {
        let current = &self.versions[self.versions.len() - 1];
        let by_size = current.compaction_score.amount >= current.compaction_score.limit as u128;
        let level: i32;
        let seed: FileMetaData;
        if by_size {
            level = current.compaction_level;
            let files = &current.files[level as usize];
            let ghost all = current.level(level as int);
            let ghost ptr = pointer_views(self.compact_pointer@)[level as int];
            let mut i: usize = 0;
            let mut found: usize = 0;
            while i < files.len()
                invariant_except_break
                    seed_index(all, ptr, 0) == seed_index(all, ptr, i as int),
                    found == 0,
                invariant
                    i <= files.len(),
                    files@.len() > 0,
                    all == metas(files@),
                    0 <= level < NUM_LEVELS,
                    self.compact_pointer@.len() == NUM_LEVELS,
                    ptr == pointer_views(self.compact_pointer@)[level as int],
                ensures
                    found == seed_index(all, ptr, 0),
                    found < files@.len(),
                decreases files.len() - i,
            {
                let past = match &self.compact_pointer[level as usize] {
                    None => true,
                    Some(p) => p.precedes(&files[i].largest_key),
                };
                if past {
                    found = i;
                    break;
                }
                i = i + 1;
            }
            seed = files[found].clone();
        } else {
            match &current.file_to_compact {
                None => {
                    return None;
                },
                Some(f) => {
                    level = current.file_to_compact_level;
                    seed = f.clone();
                },
            }
        }
        let mut c = Compaction::new(level);
        let mut first: Vec<FileMetaData> = Vec::new();
        if level == 0 {
            let begin = InternalKey::new(&seed.smallest_key.user_key, MAX_SEQUENCE_NUM, Command::Seek);
            let end = InternalKey::new(&seed.largest_key.user_key, 0, Command::Seek);
            current.get_overlap_inputs(0, &begin, &end, &mut first);
        } else {
            first.push(seed);
            assert(metas(first@) =~= seq![seed@]);
        }
        let (lo, hi) = range_of(&first);
        let begin = InternalKey::new(&lo, MAX_SEQUENCE_NUM, Command::Seek);
        let end = InternalKey::new(&hi, 0, Command::Seek);
        let mut second: Vec<FileMetaData> = Vec::new();
        current.get_overlap_inputs(level + 1, &begin, &end, &mut second);
        let mut grandparents: Vec<FileMetaData> = Vec::new();
        if level + 2 < NUM_LEVELS {
            let mut both = clone_files(&first);
            let mut k: usize = 0;
            let ghost head = metas(both@);
            while k < second.len()
                invariant
                    k <= second.len(),
                    metas(both@) == head + metas(second@).take(k as int),
                decreases second.len() - k,
            {
                let ghost before = metas(both@);
                both.push(second[k].clone());
                assert(metas(both@) =~= before.push(second@[k as int]@));
                assert(metas(second@).take(k + 1) =~= metas(second@).take(k as int).push(
                    second@[k as int]@,
                ));
                assert(metas(both@) =~= head + metas(second@).take(k + 1));
                k = k + 1;
            }
            assert(metas(second@).take(k as int) =~= metas(second@));
            let (all_lo, all_hi) = range_of(&both);
            let all_begin = InternalKey::new(&all_lo, MAX_SEQUENCE_NUM, Command::Seek);
            let all_end = InternalKey::new(&all_hi, 0, Command::Seek);
            current.get_overlap_inputs(level + 2, &all_begin, &all_end, &mut grandparents);
        } else {
            assert(metas(grandparents@) =~= Seq::<FileMetaView>::empty());
        }
        let mut inputs: Vec<Vec<FileMetaData>> = Vec::new();
        inputs.push(first);
        inputs.push(second);
        inputs.push(grandparents);
        c.inputs = inputs;
        c.version = Some(current.duplicate());
        Some(c)
    }
}

} // verus!
