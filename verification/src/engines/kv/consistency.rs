//! Why writing out the sealed memtable keeps every read: the table that is
//! written answers as the memtable did, it is looked at before every older
//! table that may hold the key, and nothing else changes.

use vstd::prelude::*;
use crate::engines::kv::codec::Command;
use crate::engines::kv::compaction::Compaction;
use crate::engines::kv::key::{
    key_le, key_lt, lemma_user_key_order, user_key_le, user_key_lt, InternalKey, InternalKeyView,
    MAX_SEQUENCE_NUM,
};
use crate::engines::kv::lsm::{
    background_outcome, compacted, compaction_edit, entered, flush_edit, flush_level,
    flushed, input_entries, is_move, is_sealed, items_as_entries, lemma_table_answers_as_memtable,
    level0_relieved, move_edit, moved, output_files, output_tables, room_step, table_meta,
    tables_with, waiting_flushed, write_outcome, KvStore,
};
use crate::engines::kv::memtable::{is_newest_visible, lists_entries_in_order, newest_visible};
use crate::engines::kv::options::{default_options, MAX_MEM_COMPACT_LEVEL, NUM_LEVELS};
use crate::engines::kv::search::{
    candidates, deeper_candidates, file_lookup, first_holding, first_older, level_candidates,
    newest_first, search_files,
};
use crate::engines::kv::table::{
    all_fit, lemma_parse_table_of_table_bytes, seek, table_bytes,
};
use crate::engines::kv::version::{
    disjoint_ascending, empty_edit, file_meets, first_after, grandparent_limit,
    insert_sorted, is_picked, kept, lemma_first_after, lemma_merged_level_members,
    lemma_overlapping_members, lemma_picked_seed_is_a_file, memtable_output_level, merged_level,
    merged_levels, overlapping, pick_level_from, picked_seed, score_at_least_one, some_file_meets,
    widened, FileMetaView,
};
use crate::error::KVSError;

verus! {

/// With nothing deleted, every file of the base is kept.
pub proof fn lemma_kept_all(base: Seq<FileMetaView>, level: i32)
    ensures
        kept(base, Set::<(i32, u64)>::empty(), level) == base,
    decreases base.len(),
{
    if base.len() > 0 {
        lemma_kept_all(base.drop_last(), level);
        assert(base.drop_last().push(base.last()) =~= base);
    } else {
        assert(kept(base, Set::<(i32, u64)>::empty(), level) =~= base);
    }
}

/// An edit that adds one file and deletes none puts the file in its place
/// in its level and leaves the other levels as they are.
pub proof fn lemma_one_file_added(base: Seq<FileMetaView>, at: i32, f: FileMetaView, level: i32)
    ensures
        merged_level(base, seq![(at, f)], Set::<(i32, u64)>::empty(), level) == (if at == level {
            insert_sorted(base, f)
        } else {
            base
        }),
        merged_level(base, Seq::<(i32, FileMetaView)>::empty(), Set::<(i32, u64)>::empty(), level)
            == base,
{
    lemma_kept_all(base, level);
    let none = Seq::<(i32, FileMetaView)>::empty();
    let nothing = Set::<(i32, u64)>::empty();
    assert(merged_level(base, none, nothing, level) == base);
    let added = seq![(at, f)];
    assert(added.drop_last() =~= none);
    assert(added.last() == (at, f));
    assert(merged_level(base, added.drop_last(), nothing, level) == base);
}

/// Where the output of a memtable is placed below level 0, no file from
/// level 0 down to its level meets its range of user keys.
pub proof fn lemma_output_level_is_clear(
    levels: Seq<Seq<FileMetaView>>,
    lo: Seq<char>,
    hi: Seq<char>,
    limit: nat,
    l: int,
)
    requires
        levels.len() == NUM_LEVELS,
        1 <= memtable_output_level(levels, lo, hi, limit),
        0 <= l <= memtable_output_level(levels, lo, hi, limit),
    ensures
        !some_file_meets(levels[l], lo, hi),
        memtable_output_level(levels, lo, hi, limit) <= MAX_MEM_COMPACT_LEVEL,
{
    let at1 = pick_level_from(levels, lo, hi, 1, limit);
    let at2 = pick_level_from(levels, lo, hi, 2, limit);
    assert(at2 == 2);
}

/// Collecting from a list with one more file collects that file too, in
/// its place, where it meets the range, and collects the same else.
pub proof fn lemma_overlapping_insert(
    list: Seq<FileMetaView>,
    at: int,
    f: FileMetaView,
    lo: Seq<char>,
    hi: Seq<char>,
)
    requires
        0 <= at <= list.len(),
    ensures
        overlapping(list.insert(at, f), lo, hi) == (if file_meets(f, lo, hi) {
            overlapping(list, lo, hi).insert(overlapping(list.take(at), lo, hi).len() as int, f)
        } else {
            overlapping(list, lo, hi)
        }),
        overlapping(list.take(at), lo, hi).len() <= overlapping(list, lo, hi).len(),
    decreases list.len() - at,
{
    let more = list.insert(at, f);
    if at == list.len() {
        assert(more =~= list.push(f));
        assert(more.drop_last() =~= list);
        assert(list.take(at) =~= list);
        if file_meets(f, lo, hi) {
            let got = overlapping(list, lo, hi);
            assert(got.push(f) =~= got.insert(got.len() as int, f));
        }
    } else {
        let front = list.drop_last();
        let x = list.last();
        assert(more.drop_last() =~= front.insert(at, f));
        assert(more.last() == x);
        assert(front.take(at) =~= list.take(at));
        lemma_overlapping_insert(front, at, f, lo, hi);
        let got = overlapping(front, lo, hi);
        let k = overlapping(list.take(at), lo, hi).len() as int;
        if file_meets(f, lo, hi) && file_meets(x, lo, hi) {
            assert(got.insert(k, f).push(x) =~= got.push(x).insert(k, f));
        }
    }
}

/// The files of a list ordered by number are the files of the list.
pub proof fn lemma_newest_first_members(files: Seq<FileMetaView>, f: FileMetaView)
    ensures
        newest_first(files).contains(f) <==> files.contains(f),
        newest_first(files).len() == files.len(),
    decreases files.len(),
{
    if files.len() > 0 {
        let front = files.drop_last();
        let x = files.last();
        lemma_newest_first_members(front, f);
        let sorted = newest_first(front);
        let at = first_older(sorted, x, 0);
        lemma_first_older_bounds(sorted, x, 0);
        let now = sorted.insert(at, x);
        if front.contains(f) {
            let k = choose|k: int| 0 <= k < front.len() && front[k] == f;
            assert(files[k] == f);
        }
        if files.contains(f) {
            let k = choose|k: int| 0 <= k < files.len() && files[k] == f;
            if k < front.len() {
                assert(front[k] == f);
            }
        }
        if sorted.contains(f) {
            let k = choose|k: int| 0 <= k < sorted.len() && sorted[k] == f;
            if k < at {
                assert(now[k] == f);
            } else {
                assert(now[k + 1] == f);
            }
        }
        if x == f {
            assert(now[at] == f);
        }
        if now.contains(f) {
            let k = choose|k: int| 0 <= k < now.len() && now[k] == f;
            if k < at {
                assert(sorted[k] == f);
            } else if k > at {
                assert(sorted[k - 1] == f);
            }
        }
    }
}

/// The place that `first_older` gives lies within the list or at its end.
pub proof fn lemma_first_older_bounds(list: Seq<FileMetaView>, f: FileMetaView, i: int)
    requires
        0 <= i <= list.len(),
    ensures
        i <= first_older(list, f, i) <= list.len(),
    decreases list.len() - i,
{
    if i < list.len() && !(list[i].num < f.num) {
        lemma_first_older_bounds(list, f, i + 1);
    }
}

/// Behind a file with a higher number, the place of a file among the rest
/// is one further.
pub proof fn lemma_first_older_behind(
    head: FileMetaView,
    rest: Seq<FileMetaView>,
    f: FileMetaView,
    i: int,
)
    requires
        0 <= i <= rest.len(),
    ensures
        first_older(seq![head] + rest, f, i + 1) == 1 + first_older(rest, f, i),
    decreases rest.len() - i,
{
    let all = seq![head] + rest;
    if i < rest.len() {
        assert(all[i + 1] == rest[i]);
        if !(rest[i].num < f.num) {
            lemma_first_older_behind(head, rest, f, i + 1);
        }
    }
}

/// A file with a higher number than every file of a list comes first when
/// it is added to the list, wherever it is added, and the rest keep their
/// order.
pub proof fn lemma_newest_comes_first(files: Seq<FileMetaView>, at: int, f: FileMetaView)
    requires
        0 <= at <= files.len(),
        forall|i: int| 0 <= i < files.len() ==> (#[trigger] files[i]).num < f.num,
    ensures
        newest_first(files.insert(at, f)) == seq![f] + newest_first(files),
    decreases files.len() - at,
{
    let more = files.insert(at, f);
    if at == files.len() {
        assert(more.drop_last() =~= files);
        assert(more.last() == f);
        let sorted = newest_first(files);
        if sorted.len() > 0 {
            lemma_newest_first_members(files, sorted[0]);
            let k = choose|k: int| 0 <= k < files.len() && files[k] == sorted[0];
            assert(files[k].num < f.num);
        }
        assert(first_older(sorted, f, 0) == 0);
        assert(sorted.insert(0, f) =~= seq![f] + sorted);
    } else {
        let front = files.drop_last();
        let x = files.last();
        assert(more.drop_last() =~= front.insert(at, f));
        assert(more.last() == x);
        assert forall|i: int| 0 <= i < front.len() implies (#[trigger] front[i]).num < f.num by {
            assert(front[i] == files[i]);
        }
        lemma_newest_comes_first(front, at, f);
        let sorted = newest_first(front);
        let with_f = seq![f] + sorted;
        assert(files[files.len() - 1].num < f.num);
        assert(with_f[0] == f);
        lemma_first_older_behind(f, sorted, x, 0);
        let j = first_older(sorted, x, 0);
        lemma_first_older_bounds(sorted, x, 0);
        assert(first_older(with_f, x, 0) == 1 + j);
        assert(with_f.insert(1 + j, x) =~= seq![f] + sorted.insert(j, x));
    }
}

/// The place that `first_holding` gives: no file before it holds the key,
/// and the file at it does.
pub proof fn lemma_first_holding(files: Seq<FileMetaView>, key: InternalKeyView, i: int)
    requires
        0 <= i <= files.len(),
    ensures
        i <= first_holding(files, key, i) <= files.len(),
        forall|k: int|
            i <= k < first_holding(files, key, i) ==> !key_le(key, (#[trigger] files[k]).largest),
        first_holding(files, key, i) < files.len() ==> key_le(
            key,
            files[first_holding(files, key, i)].largest,
        ),
    decreases files.len() - i,
{
    if i < files.len() && !key_le(key, files[i].largest) {
        lemma_first_holding(files, key, i + 1);
    }
}

/// Behind the place where a file was added, the first file that holds a key
/// is one further than it was.
pub proof fn lemma_first_holding_behind(
    list: Seq<FileMetaView>,
    at: int,
    f: FileMetaView,
    key: InternalKeyView,
    i: int,
)
    requires
        0 <= at <= i <= list.len(),
    ensures
        first_holding(list.insert(at, f), key, i + 1) == 1 + first_holding(list, key, i),
    decreases list.len() - i,
{
    let more = list.insert(at, f);
    if i < list.len() {
        assert(more[i + 1] == list[i]);
        if !key_le(key, list[i].largest) {
            lemma_first_holding_behind(list, at, f, key, i + 1);
        }
    }
}

/// The first file that holds a key in a list with one more file: the one it
/// was where that stands before the new file; else the new file where it
/// holds the key; else the one it was, one place further.
pub proof fn lemma_first_holding_insert(
    list: Seq<FileMetaView>,
    at: int,
    f: FileMetaView,
    key: InternalKeyView,
    i: int,
)
    requires
        0 <= i <= at <= list.len(),
    ensures
        first_holding(list.insert(at, f), key, i) == (if first_holding(list, key, i) < at {
            first_holding(list, key, i)
        } else if key_le(key, f.largest) {
            at
        } else {
            first_holding(list, key, i) + 1
        }),
    decreases at - i,
{
    let more = list.insert(at, f);
    lemma_first_holding(list, key, i);
    if i < at {
        assert(more[i] == list[i]);
        if !key_le(key, list[i].largest) {
            lemma_first_holding_insert(list, at, f, key, i + 1);
        }
    } else {
        assert(more[at] == f);
        if !key_le(key, f.largest) {
            lemma_first_holding_behind(list, at, f, key, at);
        }
    }
}

/// Whether the range of user keys of a file holds a user key.
pub open spec fn covers(f: FileMetaView, user_key: Seq<char>) -> bool {
    user_key_le(f.smallest.user_key, user_key) && user_key_le(user_key, f.largest.user_key)
}

/// A file is added to a level from the first on that holds no file which
/// meets its range. For a key whose user key the file covers, and which the
/// file holds, the file is then the one file of the level that may hold the
/// key, where before there was none. For every other key the level offers
/// the file that it offered before.
pub proof fn lemma_level_candidates_with_file(
    base: Seq<FileMetaView>,
    f: FileMetaView,
    key: InternalKeyView,
)
    requires
        disjoint_ascending(base),
        disjoint_ascending(insert_sorted(base, f)),
        !some_file_meets(base, f.smallest.user_key, f.largest.user_key),
    ensures
        covers(f, key.user_key) && key_le(key, f.largest) ==> level_candidates(
            insert_sorted(base, f),
            key,
        ) == seq![f] && level_candidates(base, key) == Seq::<FileMetaView>::empty(),
        !covers(f, key.user_key) ==> level_candidates(insert_sorted(base, f), key)
            == level_candidates(base, key),
{
    let at = first_after(base, f, 0);
    lemma_first_after(base, f, 0);
    let more = base.insert(at, f);
    let lo = f.smallest.user_key;
    let hi = f.largest.user_key;
    let uk = key.user_key;
    let was = first_holding(base, key, 0);
    let is = first_holding(more, key, 0);
    lemma_first_holding(base, key, 0);
    lemma_first_holding_insert(base, at, f, key, 0);
    lemma_user_key_order();
    assert(more[at] == f);
    assert(key_le(f.smallest, f.largest));
    assert(user_key_le(lo, hi));
    // No file before the new one reaches its range.
    assert forall|j: int| 0 <= j < at implies user_key_lt(
        (#[trigger] base[j]).largest.user_key,
        lo,
    ) by {
        assert(more[j] == base[j]);
        assert(key_lt(more[j].largest, more[at].smallest));
        assert(key_le(more[j].smallest, more[j].largest));
        let g = base[j];
        assert(user_key_le(g.largest.user_key, lo));
        assert(user_key_le(g.smallest.user_key, g.largest.user_key));
        if g.largest.user_key == lo {
            assert(!user_key_lt(hi, g.smallest.user_key));
            assert(file_meets(g, lo, hi));
        }
    }
    // Every file behind the new one starts after its range.
    assert forall|j: int| at <= j < base.len() implies user_key_lt(
        hi,
        (#[trigger] base[j]).smallest.user_key,
    ) by {
        assert(more[j + 1] == base[j]);
        assert(key_lt(more[at].largest, more[j + 1].smallest));
        assert(key_le(more[j + 1].smallest, more[j + 1].largest));
        let g = base[j];
        assert(user_key_le(hi, g.smallest.user_key));
        assert(user_key_le(g.smallest.user_key, g.largest.user_key));
        if g.smallest.user_key == hi {
            assert(!user_key_lt(g.largest.user_key, lo));
            assert(file_meets(g, lo, hi));
        }
    }
    if covers(f, uk) && key_le(key, f.largest) {
        if was < at {
            assert(key_le(key, base[was].largest));
            assert(user_key_lt(base[was].largest.user_key, lo));
            assert(user_key_le(uk, base[was].largest.user_key));
        }
        assert(is == at);
        if was < base.len() {
            assert(user_key_lt(hi, base[was].smallest.user_key));
            assert(!user_key_le(base[was].smallest.user_key, uk));
        }
        assert(level_candidates(base, key) =~= Seq::<FileMetaView>::empty());
    }
    if !covers(f, uk) {
        if was < at {
            assert(more[was] == base[was]);
        } else if key_le(key, f.largest) {
            // The key comes before the range: the new file holds it but
            // starts after it, and so does every file behind.
            assert(user_key_le(uk, hi));
            assert(user_key_lt(uk, lo));
            if was < base.len() {
                assert(user_key_lt(hi, base[was].smallest.user_key));
                assert(!user_key_le(base[was].smallest.user_key, uk));
            }
            assert(level_candidates(more, key) =~= Seq::<FileMetaView>::empty());
            assert(level_candidates(base, key) =~= Seq::<FileMetaView>::empty());
        } else {
            if was < base.len() {
                assert(more[was + 1] == base[was]);
            }
        }
    }
}

/// A level that holds no file which meets a range offers no file for a
/// user key within the range, neither as a file of level 0 nor as a file of
/// a deeper level.
pub proof fn lemma_clear_level_offers_nothing(
    files: Seq<FileMetaView>,
    lo: Seq<char>,
    hi: Seq<char>,
    key: InternalKeyView,
)
    requires
        !some_file_meets(files, lo, hi),
        user_key_le(lo, key.user_key),
        user_key_le(key.user_key, hi),
    ensures
        overlapping(files, key.user_key, key.user_key) == Seq::<FileMetaView>::empty(),
        level_candidates(files, key) == Seq::<FileMetaView>::empty(),
{
    lemma_user_key_order();
    let uk = key.user_key;
    let got = overlapping(files, uk, uk);
    if got.len() > 0 {
        lemma_overlapping_members(files, uk, uk, got[0]);
        assert(got.contains(got[0]));
        let k = choose|k: int| 0 <= k < files.len() && files[k] == got[0];
        assert(file_meets(files[k], lo, hi));
    }
    assert(got =~= Seq::<FileMetaView>::empty());
    let idx = first_holding(files, key, 0);
    lemma_first_holding(files, key, 0);
    if idx < files.len() && user_key_le(files[idx].smallest.user_key, uk) {
        assert(key_le(key, files[idx].largest));
        assert(user_key_le(uk, files[idx].largest.user_key));
        assert(file_meets(files[idx], lo, hi));
    }
    assert(level_candidates(files, key) =~= Seq::<FileMetaView>::empty());
}

/// Levels that offer the same file for a key, from a level on, offer the
/// same files from that level on.
pub proof fn lemma_deeper_candidates_same(
    levels: Seq<Seq<FileMetaView>>,
    other: Seq<Seq<FileMetaView>>,
    key: InternalKeyView,
    from: int,
)
    requires
        levels.len() == other.len(),
        1 <= from,
        forall|l: int|
            from <= l < levels.len() ==> level_candidates(#[trigger] other[l], key)
                == level_candidates(levels[l], key),
    ensures
        deeper_candidates(other, key, from) == deeper_candidates(levels, key, from),
    decreases levels.len() - from,
{
    if from < levels.len() {
        lemma_deeper_candidates_same(levels, other, key, from + 1);
        assert(level_candidates(other[from], key) == level_candidates(levels[from], key));
    }
}

/// Where one level comes to offer a file for a key, and no level from
/// `from` down to it offered one, the file comes before the files that the
/// deeper levels offer.
pub proof fn lemma_deeper_candidates_with_file(
    levels: Seq<Seq<FileMetaView>>,
    other: Seq<Seq<FileMetaView>>,
    key: InternalKeyView,
    level: int,
    f: FileMetaView,
    from: int,
)
    requires
        levels.len() == other.len(),
        1 <= from <= level < levels.len(),
        forall|l: int|
            from <= l <= level ==> level_candidates(#[trigger] levels[l], key) == Seq::<
                FileMetaView,
            >::empty(),
        forall|l: int|
            from <= l < level ==> level_candidates(#[trigger] other[l], key) == Seq::<
                FileMetaView,
            >::empty(),
        level_candidates(other[level], key) == seq![f],
        forall|l: int|
            level < l < levels.len() ==> level_candidates(#[trigger] other[l], key)
                == level_candidates(levels[l], key),
    ensures
        deeper_candidates(other, key, from) == seq![f] + deeper_candidates(levels, key, from),
    decreases level - from,
{
    let none = Seq::<FileMetaView>::empty();
    if from < level {
        lemma_deeper_candidates_with_file(levels, other, key, level, f, from + 1);
        assert(level_candidates(levels[from], key) == none);
        assert(level_candidates(other[from], key) == none);
        assert(none + deeper_candidates(other, key, from + 1) =~= deeper_candidates(
            other,
            key,
            from + 1,
        ));
        assert(none + deeper_candidates(levels, key, from + 1) =~= deeper_candidates(
            levels,
            key,
            from + 1,
        ));
    } else {
        lemma_deeper_candidates_same(levels, other, key, level + 1);
        assert(level_candidates(levels[level], key) == none);
        assert(none + deeper_candidates(levels, key, level + 1) =~= deeper_candidates(
            levels,
            key,
            level + 1,
        ));
    }
}

/// Every file that a lookup searches is a file of a level.
pub proof fn lemma_candidates_are_files(
    levels: Seq<Seq<FileMetaView>>,
    key: InternalKeyView,
    f: FileMetaView,
)
    requires
        levels.len() >= 1,
        candidates(levels, key).contains(f),
    ensures
        exists|l: int| 0 <= l < levels.len() && (#[trigger] levels[l]).contains(f),
{
    let top = newest_first(overlapping(levels[0], key.user_key, key.user_key));
    let deep = deeper_candidates(levels, key, 1);
    let all = candidates(levels, key);
    let k = choose|k: int| 0 <= k < all.len() && all[k] == f;
    if k < top.len() {
        assert(top[k] == f);
        lemma_newest_first_members(overlapping(levels[0], key.user_key, key.user_key), f);
        lemma_overlapping_members(
            levels[0],
            key.user_key,
            key.user_key,
            f,
        );
        assert(levels[0].contains(f));
    } else {
        assert(deep[k - top.len()] == f);
        lemma_deeper_candidates_are_files(levels, key, 1, f);
    }
}

/// Every file that the deeper levels offer is a file of one of them.
pub proof fn lemma_deeper_candidates_are_files(
    levels: Seq<Seq<FileMetaView>>,
    key: InternalKeyView,
    from: int,
    f: FileMetaView,
)
    requires
        1 <= from,
        deeper_candidates(levels, key, from).contains(f),
    ensures
        exists|l: int| from <= l < levels.len() && (#[trigger] levels[l]).contains(f),
    decreases levels.len() - from,
{
    if from < levels.len() {
        let here = level_candidates(levels[from], key);
        let rest = deeper_candidates(levels, key, from + 1);
        let all = deeper_candidates(levels, key, from);
        let k = choose|k: int| 0 <= k < all.len() && all[k] == f;
        if k < here.len() {
            assert(here[k] == f);
            let idx = first_holding(levels[from], key, 0);
            assert(levels[from][idx] == f);
            assert(levels[from].contains(f));
        } else {
            assert(rest[k - here.len()] == f);
            assert(rest.contains(f));
            lemma_deeper_candidates_are_files(levels, key, from + 1, f);
            let l = choose|l: int| from + 1 <= l < levels.len() && (#[trigger] levels[l]).contains(f);
            assert(levels[l].contains(f));
        }
    }
}

/// A search of files gives the same with one more table, where none of
/// the files has the number of that table.
pub proof fn lemma_search_ignores_other_tables(
    files: Seq<FileMetaView>,
    tables: Map<u64, Vec<u8>>,
    more: Map<u64, Vec<u8>>,
    number: u64,
    key: InternalKeyView,
)
    requires
        more.dom() == tables.dom().insert(number),
        forall|n: u64| n != number && tables.contains_key(n) ==> #[trigger] more[n] == tables[n],
        forall|i: int| 0 <= i < files.len() ==> (#[trigger] files[i]).num != number,
    ensures
        search_files(files, more, key) == search_files(files, tables, key),
    decreases files.len(),
{
    if files.len() > 0 {
        let rest = files.skip(1);
        assert forall|i: int| 0 <= i < rest.len() implies (#[trigger] rest[i]).num != number by {
            assert(rest[i] == files[i + 1]);
        }
        lemma_search_ignores_other_tables(rest, tables, more, number, key);
        let n = files[0].num;
        assert(more.contains_key(n) == tables.contains_key(n));
    }
}

/// The user keys of entries in order lie between those of the first and
/// the last.
pub proof fn lemma_entries_range(items: Seq<(InternalKey, i64, usize)>, i: int)
    requires
        0 <= i < items.len(),
        forall|a: int, b: int|
            #![trigger items[a], items[b]]
            0 <= a < b < items.len() ==> key_lt(items[a].0@, items[b].0@),
    ensures
        user_key_le(items[0].0@.user_key, items[i].0@.user_key),
        user_key_le(items[i].0@.user_key, items[items.len() - 1].0@.user_key),
{
    if 0 < i {
        assert(key_lt(items[0].0@, items[i].0@));
    }
    if i < items.len() - 1 {
        assert(key_lt(items[i].0@, items[items.len() - 1].0@));
    }
}

/// Whether every file of the current version has a number below the next
/// file number.
pub open spec fn numbers_below_next(store: KvStore) -> bool {
    forall|l: int, i: int|
        #![trigger store.versions.current().level(l)[i]]
        0 <= l < NUM_LEVELS && 0 <= i < store.versions.current().level(l).len()
            ==> store.versions.current().level(l)[i].num < store.versions.next_file_number
}

/// Whether no entry of the sealed memtable has a sequence number above that
/// of the latest write.
pub open spec fn sealed_within_latest(store: KvStore) -> bool {
    store.imm is Some ==> forall|k: (Seq<char>, u64)| #[trigger]
        store.imm.unwrap()@.contains_key(k) ==> k.1 <= store.versions.last_sequence
}

/// The level that the output of a memtable is placed at is one of the
/// levels from 0 to `MAX_MEM_COMPACT_LEVEL`.
pub proof fn lemma_output_level_bounds(
    levels: Seq<Seq<FileMetaView>>,
    lo: Seq<char>,
    hi: Seq<char>,
    limit: nat,
)
    ensures
        0 <= memtable_output_level(levels, lo, hi, limit) <= MAX_MEM_COMPACT_LEVEL,
{
    let at1 = pick_level_from(levels, lo, hi, 1, limit);
    let at2 = pick_level_from(levels, lo, hi, 2, limit);
    assert(at2 == 2);
}

/// The files that a lookup searches after a file with the highest number
/// was added at the level that `memtable_output_level` gives for its range:
/// the new file and then the files that were searched before, where the new
/// file covers the user key of the key; else the files that were searched
/// before.
pub proof fn lemma_candidates_after_flush(
    levels: Seq<Seq<FileMetaView>>,
    now: Seq<Seq<FileMetaView>>,
    level: int,
    f: FileMetaView,
    key: InternalKeyView,
    limit: nat,
)
    requires
        levels.len() == NUM_LEVELS,
        now.len() == NUM_LEVELS,
        level == memtable_output_level(levels, f.smallest.user_key, f.largest.user_key, limit),
        forall|l: int|
            0 <= l < NUM_LEVELS ==> #[trigger] now[l] == (if l == level {
                insert_sorted(levels[l], f)
            } else {
                levels[l]
            }),
        forall|l: int| 1 <= l < NUM_LEVELS ==> disjoint_ascending(#[trigger] levels[l]),
        forall|l: int| 1 <= l < NUM_LEVELS ==> disjoint_ascending(#[trigger] now[l]),
        forall|i: int| 0 <= i < levels[0].len() ==> (#[trigger] levels[0][i]).num < f.num,
        covers(f, key.user_key) ==> key_le(key, f.largest),
    ensures
        candidates(now, key) == (if covers(f, key.user_key) {
            seq![f] + candidates(levels, key)
        } else {
            candidates(levels, key)
        }),
{
    lemma_user_key_order();
    lemma_output_level_bounds(levels, f.smallest.user_key, f.largest.user_key, limit);
    let lo = f.smallest.user_key;
    let hi = f.largest.user_key;
    let uk = key.user_key;
    let was = candidates(levels, key);
    let none = Seq::<FileMetaView>::empty();
    assert(now[0] == (if 0 == level {
        insert_sorted(levels[0], f)
    } else {
        levels[0]
    }));
    if level == 0 {
        let base = levels[0];
        let at = first_after(base, f, 0);
        lemma_first_after(base, f, 0);
        lemma_overlapping_insert(base, at, f, uk, uk);
        lemma_deeper_candidates_same(levels, now, key, 1);
        if covers(f, uk) {
            let met = overlapping(base, uk, uk);
            assert(file_meets(f, uk, uk));
            assert forall|i: int| 0 <= i < met.len() implies (#[trigger] met[i]).num < f.num by {
                assert(met.contains(met[i]));
                lemma_overlapping_members(base, uk, uk, met[i]);
                let k = choose|k: int| 0 <= k < base.len() && base[k] == met[i];
                assert(base[k].num < f.num);
            }
            lemma_newest_comes_first(met, overlapping(base.take(at), uk, uk).len() as int, f);
            assert(candidates(now, key) =~= seq![f] + was);
        } else {
            assert(!file_meets(f, uk, uk));
            assert(candidates(now, key) =~= was);
        }
    } else {
        lemma_output_level_is_clear(levels, lo, hi, limit, level);
        assert(now[level] == insert_sorted(levels[level], f));
        assert(disjoint_ascending(levels[level]));
        assert(disjoint_ascending(now[level]));
        lemma_level_candidates_with_file(levels[level], f, key);
        if covers(f, uk) {
            assert forall|l: int| 0 <= l <= level implies !some_file_meets(
                #[trigger] levels[l],
                lo,
                hi,
            ) by {
                lemma_output_level_is_clear(levels, lo, hi, limit, l);
            }
            lemma_clear_level_offers_nothing(levels[0], lo, hi, key);
            assert forall|l: int| 1 <= l <= level implies level_candidates(
                #[trigger] levels[l],
                key,
            ) == none by {
                lemma_clear_level_offers_nothing(levels[l], lo, hi, key);
            }
            assert forall|l: int| 1 <= l < level implies level_candidates(#[trigger] now[l], key)
                == none by {
                assert(now[l] == levels[l]);
            }
            lemma_deeper_candidates_with_file(levels, now, key, level, f, 1);
            assert(none + deeper_candidates(now, key, 1) =~= deeper_candidates(now, key, 1));
            assert(none + deeper_candidates(levels, key, 1) =~= deeper_candidates(levels, key, 1));
            assert(candidates(now, key) =~= seq![f] + was);
        } else {
            lemma_deeper_candidates_same(levels, now, key, 1);
            assert(candidates(now, key) =~= was);
        }
    }
}

/// The levels after the sealed memtable was written out: the level that
/// the new file is placed at holds it in its place, and the other levels are
/// as they were.
pub proof fn lemma_levels_after_flush(
    before: KvStore,
    after: KvStore,
    items: Seq<(InternalKey, i64, usize)>,
)
    requires
        before.wf(),
        before.imm is Some,
        flushed(before, after, Ok(()), items),
    ensures
        after.versions.last_sequence == before.versions.last_sequence,
        after.mem == before.mem,
        after.vlog_writer == before.vlog_writer,
        after.imm is None,
        all_fit(items_as_entries(items)),
        lists_entries_in_order(items, before.imm.unwrap()@),
        tables_with(
            before.tables@,
            after.tables@,
            before.versions.next_file_number,
            table_bytes(items_as_entries(items)),
        ),
        items.len() == 0 ==> after.versions.current().levels()
            == before.versions.current().levels(),
        items.len() > 0 ==> {
            let es = items_as_entries(items);
            let f = table_meta(es, before.versions.next_file_number, table_bytes(es).len() as u64);
            let level = memtable_output_level(
                before.versions.current().levels(),
                f.smallest.user_key,
                f.largest.user_key,
                grandparent_limit(default_options()),
            );
            forall|l: int|
                0 <= l < NUM_LEVELS ==> #[trigger] after.versions.current().levels()[l] == (if l
                    == level {
                    insert_sorted(before.versions.current().levels()[l], f)
                } else {
                    before.versions.current().levels()[l]
                })
        },
{
    reveal(flushed);
    let levels = before.versions.current().levels();
    let now = after.versions.current().levels();
    let es = items_as_entries(items);
    let edit = flush_edit(before, items);
    assert(now == merged_levels(levels, edit));
    assert(levels.len() == NUM_LEVELS);
    if es.len() == 0 {
        assert(edit.added =~= Seq::<(i32, FileMetaView)>::empty());
        assert forall|l: int| 0 <= l < NUM_LEVELS implies #[trigger] now[l] == levels[l] by {
            lemma_one_file_added(levels[l], 0, arbitrary(), l as i32);
        }
        assert(now =~= levels);
    } else {
        let f = table_meta(es, before.versions.next_file_number, table_bytes(es).len() as u64);
        let level = memtable_output_level(
            levels,
            f.smallest.user_key,
            f.largest.user_key,
            grandparent_limit(default_options()),
        );
        lemma_output_level_bounds(
            levels,
            f.smallest.user_key,
            f.largest.user_key,
            grandparent_limit(default_options()),
        );
        assert(flush_level(before, es, true) == level);
        assert(edit.added =~= seq![(level as i32, f)]);
        assert forall|l: int| 0 <= l < NUM_LEVELS implies #[trigger] now[l] == (if l == level {
            insert_sorted(levels[l], f)
        } else {
            levels[l]
        }) by {
            lemma_one_file_added(levels[l], level as i32, f, l as i32);
        }
    }
}

/// What the search of the tables gives after the sealed memtable was
/// written out: what the sealed memtable showed for the key, where it showed
/// an entry, and else what the search gave before.
pub proof fn lemma_flush_keeps_searches(
    before: KvStore,
    after: KvStore,
    items: Seq<(InternalKey, i64, usize)>,
    key: Seq<char>,
)
    requires
        before.wf(),
        after.wf(),
        before.imm is Some,
        flushed(before, after, Ok(()), items),
        numbers_below_next(before),
        sealed_within_latest(before),
    ensures
        search_files(
            candidates(after.versions.current().levels(), before.seek_key(key)),
            after.tables@,
            before.seek_key(key),
        ) == (match newest_visible(before.imm.unwrap()@, key, before.versions.last_sequence) {
            Some(place) => Ok::<Option<(i64, usize)>, KVSError>(Some(place)),
            None => search_files(
                candidates(before.versions.current().levels(), before.seek_key(key)),
                before.tables@,
                before.seek_key(key),
            ),
        }),
{
    lemma_levels_after_flush(before, after, items);
    lemma_user_key_order();
    let sk = before.seek_key(key);
    let bound = before.versions.last_sequence;
    let sealed = before.imm.unwrap()@;
    let shown = newest_visible(sealed, key, bound);
    let cur = before.versions.current();
    let levels = cur.levels();
    let now = after.versions.current().levels();
    let number = before.versions.next_file_number;
    let es = items_as_entries(items);
    let was = candidates(levels, sk);
    assert forall|l: int| 0 <= l < NUM_LEVELS implies #[trigger] levels[l] == cur.level(l) by {}
    assert forall|l: int| 0 <= l < NUM_LEVELS implies #[trigger] now[l]
        == after.versions.current().level(l) by {}
    // No file that was searched has the number of the new table.
    assert forall|i: int| 0 <= i < was.len() implies (#[trigger] was[i]).num != number by {
        assert(was.contains(was[i]));
        lemma_candidates_are_files(levels, sk, was[i]);
        let l = choose|l: int| 0 <= l < levels.len() && (#[trigger] levels[l]).contains(was[i]);
        let k = choose|k: int| 0 <= k < levels[l].len() && levels[l][k] == was[i];
        assert(cur.level(l)[k].num < number);
    }
    lemma_search_ignores_other_tables(was, before.tables@, after.tables@, number, sk);
    lemma_table_answers_as_memtable(items, sealed, sk);
    if es.len() == 0 {
        assert(seek(es, sk) is None);
    } else {
        let f = table_meta(es, number, table_bytes(es).len() as u64);
        let limit = grandparent_limit(default_options());
        let level = memtable_output_level(levels, f.smallest.user_key, f.largest.user_key, limit);
        // The new table answers as the sealed memtable did.
        lemma_parse_table_of_table_bytes(es);
        assert(file_lookup(after.tables@, number, sk) == Ok::<Option<(i64, usize)>, KVSError>(
            shown,
        ));
        // The entries of the memtable lie within the range of the file.
        assert(es[0].key == items[0].0@);
        assert(es[es.len() - 1].key == items[items.len() - 1].0@);
        if shown is Some {
            let s = choose|s: u64|
                is_newest_visible(sealed, key, bound, s);
            assert(sealed.contains_key((key, s)));
            let i = choose|i: int|
                0 <= i < items.len() && (#[trigger] items[i]).0@.user_key == key
                    && items[i].0@.sequence_num == s;
            lemma_entries_range(items, i);
            assert(covers(f, key));
        }
        if covers(f, key) {
            let last = items[items.len() - 1];
            assert(sealed.contains_key((last.0@.user_key, last.0@.sequence_num)));
            assert(last.0@.sequence_num <= bound);
            assert(key_le(sk, f.largest));
        }
        assert forall|i: int| 0 <= i < levels[0].len() implies (#[trigger] levels[0][i]).num
            < f.num by {
            assert(cur.level(0)[i].num < number);
        }
        assert forall|l: int| 1 <= l < NUM_LEVELS implies disjoint_ascending(
            #[trigger] levels[l],
        ) by {
            assert(disjoint_ascending(cur.level(l)));
        }
        assert forall|l: int| 1 <= l < NUM_LEVELS implies disjoint_ascending(#[trigger] now[l]) by {
            assert(disjoint_ascending(after.versions.current().level(l)));
        }
        lemma_candidates_after_flush(levels, now, level, f, sk, limit);
        if covers(f, key) {
            let all = seq![f] + was;
            assert(all[0] == f);
            assert(all.skip(1) =~= was);
        } else {
            assert(shown is None);
        }
    }
}

/// Writing out the sealed memtable keeps every read: what a read of any key
/// gives after it is what the read gave before. This holds for a store in
/// which the files of the current version have numbers below the next file
/// number and no entry of the sealed memtable is newer than the latest
/// write.
pub proof fn lemma_flush_keeps_reads(
    before: KvStore,
    after: KvStore,
    items: Seq<(InternalKey, i64, usize)>,
    key: Seq<char>,
)
    requires
        before.wf(),
        after.wf(),
        before.imm is Some,
        flushed(before, after, Ok(()), items),
        numbers_below_next(before),
        sealed_within_latest(before),
    ensures
        after.spec_get(key) == before.spec_get(key),
{
    lemma_flush_keeps_searches(before, after, items, key);
    reveal(flushed);
    assert(after.seek_key(key) == before.seek_key(key));
}

// ---------------------------------------------------------------------------
// A tidy store stays tidy
// ---------------------------------------------------------------------------

/// Whether no entry of the memtable has a sequence number above that of the
/// latest write.
pub open spec fn mem_within_latest(store: KvStore) -> bool {
    forall|k: (Seq<char>, u64)| #[trigger]
        store.mem@.contains_key(k) ==> k.1 <= store.versions.last_sequence
}

/// What the law about writing out a memtable asks of a store: the files of
/// the current version have numbers below the next file number, and no
/// entry of the memtables is newer than the latest write.
pub open spec fn tidy(store: KvStore) -> bool {
    &&& numbers_below_next(store)
    &&& sealed_within_latest(store)
    &&& mem_within_latest(store)
    &&& store.versions.current().file_to_compact is Some
        ==> store.versions.current().file_to_compact.unwrap()@.num
        < store.versions.next_file_number
}

/// A store without data is tidy.
pub proof fn lemma_fresh_store_is_tidy(store: KvStore)
    requires
        store.mem@ == Map::<(Seq<char>, u64), (i64, usize)>::empty(),
        store.imm is None,
        store.versions.current().file_to_compact is None,
        forall|l: int|
            0 <= l < NUM_LEVELS ==> (#[trigger] store.versions.current().level(l)).len() == 0,
    ensures
        tidy(store),
{
}

/// Entering a write keeps a store tidy.
pub proof fn lemma_entered_keeps_tidy(
    before: KvStore,
    after: KvStore,
    command: Command,
    key: Seq<char>,
    value: Seq<char>,
)
    requires
        tidy(before),
        before.versions.last_sequence < u64::MAX,
        entered(before, after, command, key, value),
    ensures
        tidy(after),
{
    assert(after.versions.current() == before.versions.current());
}

/// Sealing the memtable keeps a store tidy, and keeps every read.
pub proof fn lemma_sealed_keeps_tidy(before: KvStore, after: KvStore, key: Seq<char>)
    requires
        tidy(before),
        before.imm is None,
        before.versions.next_file_number < u64::MAX,
        is_sealed(before, after),
    ensures
        tidy(after),
        after.spec_get(key) == before.spec_get(key),
{
    assert(after.versions.current() == before.versions.current());
    let bound = before.versions.last_sequence;
    let none = Map::<(Seq<char>, u64), (i64, usize)>::empty();
    if exists|s: u64| is_newest_visible(none, key, bound, s) {
        let s = choose|s: u64| is_newest_visible(none, key, bound, s);
        assert(none.contains_key((key, s)));
    }
    assert(newest_visible(after.mem@, key, bound) is None);
    assert(after.seek_key(key) == before.seek_key(key));
}

/// Writing out the sealed memtable keeps a store tidy, whether it succeeds
/// or fails.
pub proof fn lemma_flushed_keeps_tidy(
    before: KvStore,
    after: KvStore,
    r: Result<(), KVSError>,
    items: Seq<(InternalKey, i64, usize)>,
)
    requires
        before.wf(),
        tidy(before),
        before.imm is Some,
        flushed(before, after, r, items),
    ensures
        tidy(after),
{
    reveal(flushed);
    let number = before.versions.next_file_number;
    let cur = before.versions.current();
    let levels = cur.levels();
    if r is Ok {
        assert(flushed(before, after, Ok(()), items));
        lemma_levels_after_flush(before, after, items);
        let now = after.versions.current().levels();
        assert forall|l: int, i: int|
            #![trigger after.versions.current().level(l)[i]]
            0 <= l < NUM_LEVELS && 0 <= i < after.versions.current().level(
                l,
            ).len() implies after.versions.current().level(l)[i].num
            < after.versions.next_file_number by {
            assert(now[l] == after.versions.current().level(l));
            assert(levels[l] == cur.level(l));
            if items.len() == 0 {
                assert(cur.level(l)[i].num < number);
            } else {
                let es = items_as_entries(items);
                let f = table_meta(es, number, table_bytes(es).len() as u64);
                let level = memtable_output_level(
                    levels,
                    f.smallest.user_key,
                    f.largest.user_key,
                    grandparent_limit(default_options()),
                );
                if l == level {
                    let at = first_after(levels[l], f, 0);
                    lemma_first_after(levels[l], f, 0);
                    if i < at {
                        assert(cur.level(l)[i].num < number);
                    } else if i > at {
                        assert(cur.level(l)[i - 1].num < number);
                    }
                } else {
                    assert(cur.level(l)[i].num < number);
                }
            }
        }
    } else {
        assert(after.versions.current() == before.versions.current());
    }
}

/// A trivial move keeps a store tidy.
pub proof fn lemma_moved_keeps_tidy(
    before: KvStore,
    after: KvStore,
    c: Compaction,
    r: Result<(), KVSError>,
)
    requires
        before.wf(),
        tidy(before),
        score_at_least_one(before.versions.current().compaction_score)
            || before.versions.current().file_to_compact is Some,
        is_picked(before.versions, c),
        is_move(c),
        moved(before, after, c, r),
    ensures
        tidy(after),
{
    reveal(moved);
    let cur = before.versions.current();
    let levels = cur.levels();
    let edit = move_edit(c);
    let given = c.input_files(0)[0];
    if r is Ok {
        let now = after.versions.current().levels();
        // The file that moves has a number below the next file number.
        assert(given.num < before.versions.next_file_number) by {
            let seed = picked_seed(before.versions);
            assert(c.input_files(0).contains(given));
            if c.level == 0 {
                lemma_overlapping_members(
                    cur.level(0),
                    widened(cur.level(0), seed.smallest.user_key, seed.largest.user_key, 0).0,
                    widened(cur.level(0), seed.smallest.user_key, seed.largest.user_key, 0).1,
                    given,
                );
                let k = choose|k: int| 0 <= k < cur.level(0).len() && cur.level(0)[k] == given;
                assert(cur.level(0)[k].num < before.versions.next_file_number);
            } else if score_at_least_one(cur.compaction_score) {
                assert(c.input_files(0) == seq![seed]);
                lemma_picked_seed_is_a_file(before.versions);
                let from = cur.level(c.level as int);
                let k = choose|k: int| 0 <= k < from.len() && from[k] == seed;
                assert(cur.level(c.level as int)[k].num < before.versions.next_file_number);
            } else {
                assert(c.input_files(0) == seq![seed]);
            }
        }
        assert forall|l: int, i: int|
            #![trigger after.versions.current().level(l)[i]]
            0 <= l < NUM_LEVELS && 0 <= i < after.versions.current().level(
                l,
            ).len() implies after.versions.current().level(l)[i].num
            < after.versions.next_file_number by {
            let f = after.versions.current().level(l)[i];
            assert(now[l] == after.versions.current().level(l));
            assert(levels[l] == cur.level(l));
            assert(now[l].contains(f));
            lemma_merged_level_members(levels[l], edit.added, edit.deleted, l as i32, f);
            if levels[l].contains(f) {
                let j = choose|j: int| 0 <= j < levels[l].len() && levels[l][j] == f;
                assert(cur.level(l)[j].num < before.versions.next_file_number);
            } else {
                let j = choose|j: int| 0 <= j < edit.added.len() && edit.added[j] == (l as i32, f);
                assert(f == given);
            }
        }
    }
}

/// A merge keeps a store tidy, whether it succeeds or fails.
pub proof fn lemma_compacted_keeps_tidy(
    before: KvStore,
    after: KvStore,
    c: Compaction,
    r: Result<(), KVSError>,
)
    requires
        before.wf(),
        tidy(before),
        c.edit@ == empty_edit(),
        compacted(before, after, c, r),
    ensures
        tidy(after),
{
    reveal(compacted);
    let cur = before.versions.current();
    let levels = cur.levels();
    if r is Ok {
        let entries = input_entries(c, before.tables@).unwrap();
        let outputs = output_tables(c, entries, before.versions.last_sequence);
        let first = before.versions.next_file_number;
        let edit = compaction_edit(c, outputs, first);
        let now = after.versions.current().levels();
        assert forall|l: int, i: int|
            #![trigger after.versions.current().level(l)[i]]
            0 <= l < NUM_LEVELS && 0 <= i < after.versions.current().level(
                l,
            ).len() implies after.versions.current().level(l)[i].num
            < after.versions.next_file_number by {
            let f = after.versions.current().level(l)[i];
            assert(now[l] == after.versions.current().level(l));
            assert(levels[l] == cur.level(l));
            assert(now[l].contains(f));
            lemma_merged_level_members(levels[l], edit.added, edit.deleted, l as i32, f);
            if levels[l].contains(f) {
                let j = choose|j: int| 0 <= j < levels[l].len() && levels[l][j] == f;
                assert(cur.level(l)[j].num < first);
            } else {
                let j = choose|j: int| 0 <= j < edit.added.len() && edit.added[j] == (l as i32, f);
                assert(edit.added =~= output_files(outputs, c.level, first));
                assert(f.num == first + j);
            }
        }
    } else {
        assert(after.versions.current() == before.versions.current());
    }
}

/// Background work keeps a store tidy.
pub proof fn lemma_background_keeps_tidy(before: KvStore, after: KvStore, r: Result<(), KVSError>)
    requires
        before.wf(),
        tidy(before),
        background_outcome(before, after, r),
    ensures
        tidy(after),
{
    if before.imm is Some {
        let items = choose|items: Seq<(InternalKey, i64, usize)>| #[trigger]
            flushed(before, after, r, items);
        lemma_flushed_keeps_tidy(before, after, r, items);
    } else if !score_at_least_one(before.versions.current().compaction_score)
        && before.versions.current().file_to_compact is None {
    } else {
        let c = choose|c: Compaction| #[trigger]
            is_picked(before.versions, c) && (if is_move(c) {
                moved(before, after, c, r)
            } else {
                compacted(before, after, c, r)
            });
        if is_move(c) {
            lemma_moved_keeps_tidy(before, after, c, r);
        } else {
            lemma_compacted_keeps_tidy(before, after, c, r);
        }
    }
}

/// Making room keeps a store tidy.
pub proof fn lemma_room_keeps_tidy(
    before: KvStore,
    after: KvStore,
    r: Result<(), KVSError>,
    force: bool,
)
    requires
        before.wf(),
        tidy(before),
        room_step(before, after, r, force),
    ensures
        tidy(after),
{
    if !force && before.mem.spec_size() <= crate::engines::kv::options::COMPACT_MEMTABLE_THRESHOLD {
    } else {
        let (a, ra) = choose|a: KvStore, ra: Result<(), KVSError>| #[trigger]
            waiting_flushed(before, a, ra) && (if ra is Err {
                after == a && r == ra
            } else {
                exists|b: KvStore, rb: Result<(), KVSError>| #[trigger]
                    level0_relieved(a, b, rb) && (if rb is Err {
                        after == b && r == rb
                    } else if b.versions.next_file_number == u64::MAX {
                        after == b && r == Err::<(), KVSError>(KVSError::Corrupt)
                    } else {
                        exists|c: KvStore| #[trigger]
                            is_sealed(b, c) && background_outcome(c, after, r)
                    })
            });
        // The sealed memtable that waited is written out.
        if before.imm is Some {
            let items = choose|items: Seq<(InternalKey, i64, usize)>| #[trigger]
                flushed(before, a, ra, items);
            lemma_flushed_keeps_tidy(before, a, ra, items);
            reveal(flushed);
        }
        assert(tidy(a) && a.wf());
        if ra is Ok {
            assert(a.imm is None) by {
                if before.imm is Some {
                    reveal(flushed);
                }
            }
            let (b, rb) = choose|b: KvStore, rb: Result<(), KVSError>| #[trigger]
                level0_relieved(a, b, rb) && (if rb is Err {
                    after == b && r == rb
                } else if b.versions.next_file_number == u64::MAX {
                    after == b && r == Err::<(), KVSError>(KVSError::Corrupt)
                } else {
                    exists|c: KvStore| #[trigger] is_sealed(b, c) && background_outcome(c, after, r)
                });
            // Level 0 is relieved.
            if a.versions.current().level(0).len()
                >= crate::engines::kv::options::L0_STOP_WRITES_TRIGGER {
                lemma_background_keeps_tidy(a, b, rb);
                lemma_background_keeps_wf(a, b, rb);
                lemma_background_leaves_none_sealed(a, b, rb);
            }
            assert(tidy(b) && b.wf() && b.imm is None);
            if rb is Ok && b.versions.next_file_number != u64::MAX {
                let c = choose|c: KvStore| #[trigger]
                    is_sealed(b, c) && background_outcome(c, after, r);
                lemma_sealed_keeps_tidy(b, c, Seq::empty());
                lemma_background_keeps_tidy(c, after, r);
            }
        }
    }
}

/// Background work leaves a store well formed.
pub proof fn lemma_background_keeps_wf(before: KvStore, after: KvStore, r: Result<(), KVSError>)
    requires
        before.wf(),
        background_outcome(before, after, r),
    ensures
        after.wf(),
{
    reveal(flushed);
    reveal(moved);
    reveal(compacted);
}

/// Background work seals no memtable.
pub proof fn lemma_background_leaves_none_sealed(
    before: KvStore,
    after: KvStore,
    r: Result<(), KVSError>,
)
    requires
        before.imm is None,
        background_outcome(before, after, r),
    ensures
        after.imm is None,
{
    reveal(moved);
    reveal(compacted);
}

/// A write keeps a store tidy, whether it succeeds or fails.
pub proof fn lemma_write_keeps_tidy(
    before: KvStore,
    after: KvStore,
    r: Result<(), KVSError>,
    command: Command,
    key: Seq<char>,
    value: Seq<char>,
)
    requires
        before.wf(),
        tidy(before),
        write_outcome(before, after, r, command, key, value),
    ensures
        tidy(after),
{
    let (m, rm) = choose|m: KvStore, rm: Result<(), KVSError>| #[trigger]
        room_step(before, m, rm, false) && (if rm is Err {
            r == rm && after == m
        } else if m.versions.last_sequence >= MAX_SEQUENCE_NUM || m.vlog_writer@.len() > i64::MAX {
            r == Err::<(), KVSError>(KVSError::Corrupt) && after == m
        } else {
            r is Ok && entered(m, after, command, key, value)
        });
    lemma_room_keeps_tidy(before, m, rm, false);
    if rm is Ok && !(m.versions.last_sequence >= MAX_SEQUENCE_NUM || m.vlog_writer@.len()
        > i64::MAX) {
        lemma_entered_keeps_tidy(m, after, command, key, value);
    }
}

} // verus!
