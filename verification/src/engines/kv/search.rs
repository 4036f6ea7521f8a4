//! Finding a key in the tables of a version: which files are looked at, in
//! which order, and what the search gives.

use vstd::prelude::*;
use std::collections::HashMap;
use crate::engines::kv::key::{
    key_le, key_lt, lemma_key_order, lemma_user_key_le_lt, user_key_le, user_key_less, InternalKey,
    InternalKeyView,
};
use crate::engines::kv::options::NUM_LEVELS;
use crate::engines::kv::table::{lookup_in_table, table_lookup};
use crate::engines::kv::version::{
    find_file, first_not_before, lemma_disjoint_is_sorted, metas, overlapping,
    FileMetaData, FileMetaView, Version, VersionSet,
};
use crate::error::KVSError;

verus! {

broadcast use vstd::std_specs::hash::group_hash_axioms;

/// The bytes of every table, by the number of its file.
pub type Tables = HashMap<u64, Vec<u8>>;

/// What a lookup of `key` in the table of the given number gives: `Io`
/// where there is no such table, `Corrupt` where its bytes are no table.
pub open spec fn file_lookup(tables: Map<u64, Vec<u8>>, num: u64, key: InternalKeyView) -> Result<
    Option<(i64, usize)>,
    KVSError,
> {
    if tables.contains_key(num) {
        table_lookup(tables[num]@, key)
    } else {
        Err(KVSError::Io)
    }
}

/// What a search of the files in order gives: the outcome for the first
/// file that holds an entry for the key or fails.
pub open spec fn search_files(files: Seq<FileMetaView>, tables: Map<u64, Vec<u8>>, key: InternalKeyView) -> Result<
    Option<(i64, usize)>,
    KVSError,
>
    decreases files.len(),
{
    if files.len() == 0 {
        Ok(None)
    } else {
        match file_lookup(tables, files[0].num, key) {
            Ok(None) => search_files(files.skip(1), tables, key),
            found => found,
        }
    }
}

/// The first place from `i` on that holds a file with a lower number than
/// `f`; the length of the list where there is none.
pub open spec fn first_older(list: Seq<FileMetaView>, f: FileMetaView, i: int) -> int
    decreases list.len() - i,
{
    if i < 0 || i >= list.len() {
        list.len() as int
    } else if list[i].num < f.num {
        i
    } else {
        first_older(list, f, i + 1)
    }
}

/// The files ordered by number, the highest first; files with the same
/// number stay in their order.
pub open spec fn newest_first(files: Seq<FileMetaView>) -> Seq<FileMetaView>
    decreases files.len(),
{
    if files.len() == 0 {
        Seq::empty()
    } else {
        let sorted = newest_first(files.drop_last());
        sorted.insert(first_older(sorted, files.last(), 0), files.last())
    }
}

/// The first place from `i` on whose file does not end before `key`.
pub open spec fn first_holding(files: Seq<FileMetaView>, key: InternalKeyView, i: int) -> int
    decreases files.len() - i,
{
    if i < 0 || i >= files.len() {
        files.len() as int
    } else if key_le(key, files[i].largest) {
        i
    } else {
        first_holding(files, key, i + 1)
    }
}

/// The one file of a level from the first on that may hold `key`: the
/// first that does not end before the key, where it starts at or before the
/// key's user key.
pub open spec fn level_candidates(files: Seq<FileMetaView>, key: InternalKeyView) -> Seq<
    FileMetaView,
> {
    let idx = first_holding(files, key, 0);
    if 0 <= idx < files.len() && user_key_le(files[idx].smallest.user_key, key.user_key) {
        seq![files[idx]]
    } else {
        Seq::empty()
    }
}

/// The files of the levels from `from` on that may hold `key`, the upper
/// levels first.
pub open spec fn deeper_candidates(levels: Seq<Seq<FileMetaView>>, key: InternalKeyView, from: int) -> Seq<
    FileMetaView,
>
    decreases levels.len() - from,
{
    if from < 1 || from >= levels.len() {
        Seq::empty()
    } else {
        level_candidates(levels[from], key) + deeper_candidates(levels, key, from + 1)
    }
}

/// The files that a lookup of `key` searches, in order: the files of level
/// 0 whose range holds the key's user key, the newest first, then for each
/// deeper level the one file that may hold the key.
pub open spec fn candidates(levels: Seq<Seq<FileMetaView>>, key: InternalKeyView) -> Seq<
    FileMetaView,
> {
    newest_first(overlapping(levels[0], key.user_key, key.user_key)) + deeper_candidates(
        levels,
        key,
        1,
    )
}

/// The index that the binary search gives is the first whose file does not
/// end before the key.
pub proof fn lemma_first_holding_is(files: Seq<FileMetaView>, key: InternalKeyView, r: int, i: int)
    requires
        first_not_before(files, key, r),
        0 <= i <= r,
    ensures
        first_holding(files, key, i) == r,
    decreases r - i,
{
    if i < r {
        assert(key_lt(files[i].largest, key));
        lemma_key_order(files[i].largest, key, files[i].largest);
        lemma_first_holding_is(files, key, r, i + 1);
    } else if r < files.len() {
        assert(key_le(key, files[r].largest));
    }
}

/// Looks `key` up in the table of a file.
pub fn lookup_file(tables: &Tables, meta: &FileMetaData, key: &InternalKey) -> (r: Result<
    Option<(i64, usize)>,
    KVSError,
>)
    ensures
        r == file_lookup(tables@, meta@.num, key@),
{
    match tables.get(&meta.num) {
        None => Err(KVSError::Io),
        Some(bytes) => lookup_in_table(bytes.as_slice(), key),
    }
}

impl VersionSet {
    /// Looks `key` up in the table of a file: the place and the length of
    /// the value of the first entry that does not sort before the key, where
    /// that is an entry of the key's user key. Fails with `Io` where the
    /// table is missing and with `Corrupt` where its bytes are no table.
    pub fn get(&self, meta: &FileMetaData, key: &InternalKey, tables: &Tables) -> (r: Result<
        Option<(i64, usize)>,
        KVSError,
    >)
        ensures
            r == file_lookup(tables@, meta@.num, key@),
    {
        lookup_file(tables, meta, key)
    }
}

impl Version {
    /// Looks `key` up in the tables of the version. The files of level 0
    /// whose range holds the key's user key are searched from the newest to
    /// the oldest, then for each deeper level the one file that may hold
    /// the key. The first file that holds an entry for the key, or whose
    /// table fails, decides.
    pub fn get(&self, key: &InternalKey, tables: &Tables) -> (r: Result<
        Option<(i64, usize)>,
        KVSError,
    >)
        requires
            self.wf(),
        ensures
            r == search_files(candidates(self.levels(), key@), tables@, key@),
    {
        let ghost levels = self.levels();
        let ghost uk = key@.user_key;
        let mut list: Vec<FileMetaData> = Vec::new();
        let first = &self.files[0];
        let ghost all = self.level(0);
        let mut i: usize = 0;
        assert(all.take(0) =~= Seq::<FileMetaView>::empty());
        assert(metas(list@) =~= Seq::<FileMetaView>::empty());
        while i < first.len()
            invariant
                i <= first.len(),
                all == metas(first@),
                uk == key@.user_key,
                metas(list@) == newest_first(overlapping(all.take(i as int), uk, uk)),
            decreases first.len() - i,
        {
            assert(all.take(i + 1).drop_last() =~= all.take(i as int));
            assert(all.take(i + 1).last() == first@[i as int]@);
            if !user_key_less(first[i].largest_key.user_key.as_str(), key.user_key.as_str())
                && !user_key_less(key.user_key.as_str(), first[i].smallest_key.user_key.as_str()) {
                let f = first[i].clone();
                let ghost sorted = metas(list@);
                let ghost picked = overlapping(all.take(i as int), uk, uk).push(f@);
                assert(picked.drop_last() =~= overlapping(all.take(i as int), uk, uk));
                assert(picked.last() == f@);
                let mut at: usize = 0;
                while at < list.len() && list[at].num >= f.num
                    invariant
                        at <= list.len(),
                        sorted == metas(list@),
                        first_older(sorted, f@, 0) == first_older(sorted, f@, at as int),
                    decreases list.len() - at,
                {
                    at = at + 1;
                }
                list.insert(at, f);
                assert(metas(list@) =~= sorted.insert(at as int, f@));
            }
            i = i + 1;
        }
        assert(all.take(i as int) =~= all);
        let mut level: i32 = 1;
        assert(metas(list@) + deeper_candidates(levels, key@, 1) == candidates(levels, key@));
        while level < NUM_LEVELS
            invariant
                1 <= level <= NUM_LEVELS,
                self.wf(),
                levels == self.levels(),
                candidates(levels, key@) == metas(list@) + deeper_candidates(
                    levels,
                    key@,
                    level as int,
                ),
            decreases NUM_LEVELS - level,
        {
            let files = &self.files[level as usize];
            let ghost these = self.level(level as int);
            let ghost before = metas(list@);
            proof {
                assert(levels[level as int] == these);
                lemma_disjoint_is_sorted(these);
            }
            let idx = find_file(files, key);
            proof {
                lemma_first_holding_is(these, key@, idx as int, 0);
            }
            if idx < files.len() && !user_key_less(
                key.user_key.as_str(),
                files[idx].smallest_key.user_key.as_str(),
            ) {
                proof {
                    lemma_user_key_le_lt(key@.user_key, these[idx as int].smallest.user_key, key@.user_key);
                }
                list.push(files[idx].clone());
                assert(metas(list@) =~= before + seq![these[idx as int]]);
                assert(before + (level_candidates(these, key@) + deeper_candidates(
                    levels,
                    key@,
                    level + 1,
                )) =~= (before + level_candidates(these, key@)) + deeper_candidates(
                    levels,
                    key@,
                    level + 1,
                ));
            } else {
                proof {
                    if idx < files.len() {
                        lemma_user_key_le_lt(key@.user_key, these[idx as int].smallest.user_key, key@.user_key);
                    }
                    assert(level_candidates(these, key@) =~= Seq::<FileMetaView>::empty());
                    assert(before + (level_candidates(these, key@) + deeper_candidates(
                        levels,
                        key@,
                        level + 1,
                    )) =~= before + deeper_candidates(levels, key@, level + 1));
                }
            }
            level = level + 1;
        }
        assert(metas(list@) + deeper_candidates(levels, key@, NUM_LEVELS as int) =~= metas(list@));
        let ghost order = metas(list@);
        let mut k: usize = 0;
        assert(order.skip(0) =~= order);
        while k < list.len()
            invariant
                k <= list.len(),
                order == metas(list@),
                order == candidates(self.levels(), key@),
                search_files(order, tables@, key@) == search_files(
                    order.skip(k as int),
                    tables@,
                    key@,
                ),
            decreases list.len() - k,
        {
            let ghost rest = order.skip(k as int);
            assert(rest[0] == list@[k as int]@);
            assert(rest.skip(1) =~= order.skip(k + 1));
            match lookup_file(tables, &list[k], key) {
                Ok(None) => {},
                Ok(Some(found)) => {
                    return Ok(Some(found));
                },
                Err(e) => {
                    return Err(e);
                },
            }
            k = k + 1;
        }
        assert(order.skip(k as int) =~= Seq::<FileMetaView>::empty());
        Ok(None)
    }
}

} // verus!
