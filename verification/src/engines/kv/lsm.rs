//! The leveled variant of the engine: writes go to an operation log, a
//! value log and a memtable; a full memtable is sealed and written out as a
//! table of level 0; compactions merge tables into the level below.
//!
//! The logs and the tables are held as bytes in memory. A caller that wants
//! them on disk writes them there under the names that `make_file_name`
//! gives.

use vstd::prelude::*;
use vstd::string::StringExecFns;
use vstd::utf8::{decode_utf8, encode_utf8, encode_utf8_decode_utf8, encode_utf8_valid_utf8, valid_utf8};
use std::collections::HashMap;
use crate::engines::kv::codec::{encode_line, record_line, Command, RecordView};
use crate::engines::kv::consistency::{
    lemma_background_keeps_tidy, lemma_flush_keeps_reads, lemma_flushed_keeps_tidy,
    lemma_fresh_store_is_tidy, lemma_room_keeps_tidy, tidy,
};
use crate::engines::kv::compaction::{
    merge_outputs, merge_start, merge_state, names_file, table_views, Compaction,
};
use crate::engines::kv::key::{
    key_lt, lemma_user_key_lt_total, InternalKey, InternalKeyView, MAX_SEQUENCE_NUM,
};
use crate::engines::kv::memtable::{
    entry_cost, is_newest_visible, lemma_newest_at_bound, lemma_visible_is_newest,
    lists_entries_in_order, newest_visible, visible, MemTable, TOMBSTONE,
};
use crate::engines::kv::options::{
    decimal, default_options, file_name, COMPACT_MEMTABLE_THRESHOLD, L0_STOP_WRITES_TRIGGER,
    NUM_LEVELS,
};
use crate::engines::kv::reader::VLogReader;
use crate::engines::kv::search::{candidates, search_files, Tables};
use crate::engines::kv::table::{
    all_fit, decode_table, encode_table, entry_views, first_at_or_after, parse_table, seek,
    table_bytes, Entry, EntryView,
};
use crate::engines::kv::version::{
    empty_edit, filled, grandparent_limit, is_picked, levels_disjoint, memtable_output_level, merged_levels,
    metas, score_at_least_one, total_size, FileMetaData, FileMetaView, VersionEdit,
    VersionEditView, VersionSet,
};
use crate::engines::kv::writer::{LogWriter, VLogWriter};
use crate::error::KVSError;

verus! {

broadcast use vstd::std_specs::hash::group_hash_axioms;

// ---------------------------------------------------------------------------
// File names
// ---------------------------------------------------------------------------

/// `ToString` of the standard library for `u64`: the decimal digits of the
/// number.
#[verifier::external_body]
pub(crate) fn u64_to_string(n: u64) -> (r: String)
    ensures
        r@ == decimal(n as nat),
{
    n.to_string()
}

/// The name of a file of the data directory: its number, a dot, its label.
pub fn make_file_name(number: u64, label: &str) -> (name: String)
    ensures
        name@ == file_name(number, label@),
{
    proof {
        reveal_strlit(".");
    }
    let name = u64_to_string(number).concat(".").concat(label);
    assert(name@ =~= file_name(number, label@));
    name
}

// ---------------------------------------------------------------------------
// The scheduler of background work
// ---------------------------------------------------------------------------

/// Lets at most one compaction run at a time.
#[derive(Debug)]
pub struct CompactionScheduler {
    background_compaction_scheduled: bool,
}

impl CompactionScheduler {
    /// Whether a compaction is under way.
    pub closed spec fn scheduled(&self) -> bool {
        self.background_compaction_scheduled
    }

    /// A scheduler with no compaction under way.
    pub fn new() -> (s: CompactionScheduler)
        ensures
            !s.scheduled(),
    {
        CompactionScheduler { background_compaction_scheduled: false }
    }

    /// Claims the one slot for a compaction. Says yes, and marks a
    /// compaction as under way, exactly when none was under way.
    pub fn maybe_schedule_compaction(&mut self) -> (start: bool)
        ensures
            start == !old(self).scheduled(),
            final(self).scheduled(),
    {
        if self.background_compaction_scheduled {
            false
        } else {
            self.background_compaction_scheduled = true;
            true
        }
    }

    /// Gives the slot back when the compaction is done.
    pub fn finish(&mut self)
        ensures
            !final(self).scheduled(),
    {
        self.background_compaction_scheduled = false;
    }
}

// ---------------------------------------------------------------------------
// Entries in merged order
// ---------------------------------------------------------------------------

/// A cursor over entries in merged order.
#[derive(Debug)]
pub struct DBIterator {
    entries: Vec<Entry>,
    pos: usize,
}

impl DBIterator {
    /// The entries that are still to come.
    pub closed spec fn remaining(&self) -> Seq<EntryView> {
        entry_views(self.entries@).skip(self.pos as int)
    }

    /// The cursor lies within the entries.
    pub closed spec fn wf(&self) -> bool {
        self.pos <= self.entries@.len()
    }

    /// A cursor at the first of the entries.
    pub fn new(entries: Vec<Entry>) -> (it: DBIterator)
        ensures
            it.wf(),
            it.remaining() == entry_views(entries@),
    {
        let it = DBIterator { entries, pos: 0 };
        assert(it.remaining() =~= entry_views(entries@));
        it
    }

    /// The next entry, or nothing after the last.
    pub fn next(&mut self) -> (r: Option<Entry>)
        requires
            old(self).wf(),
        ensures
            final(self).wf(),
            old(self).remaining().len() == 0 ==> r is None && final(self).remaining() == old(self).remaining(),
            old(self).remaining().len() > 0 ==> r is Some && r.unwrap()@ == old(self).remaining()[0]
                && final(self).remaining() == old(self).remaining().skip(1),
    {
        if self.pos < self.entries.len() {
            let e = self.entries[self.pos].clone();
            let ghost before = self.remaining();
            self.pos = self.pos + 1;
            assert(self.remaining() =~= before.skip(1));
            Some(e)
        } else {
            None
        }
    }
}

/// The first place from `i` on that holds an entry that `e` sorts before;
/// the length of the list where there is none.
pub open spec fn first_greater(list: Seq<EntryView>, e: EntryView, i: int) -> int
    decreases list.len() - i,
{
    if i < 0 || i >= list.len() {
        list.len() as int
    } else if key_lt(e.key, list[i].key) {
        i
    } else {
        first_greater(list, e, i + 1)
    }
}

/// Puts an entry in its place among entries in key order.
pub fn insert_in_key_order(list: &mut Vec<Entry>, e: Entry)
    ensures
        entry_views(final(list)@) == entry_views(old(list)@).insert(
            first_greater(entry_views(old(list)@), e@, 0),
            e@,
        ),
{
    let ghost sorted = entry_views(list@);
    let mut at: usize = 0;
    while at < list.len() && !e.key.precedes(&list[at].key)
        invariant
            at <= list.len(),
            sorted == entry_views(list@),
            first_greater(sorted, e@, 0) == first_greater(sorted, e@, at as int),
        decreases list.len() - at,
    {
        at = at + 1;
    }
    list.insert(at, e);
    assert(entry_views(list@) =~= sorted.insert(at as int, e@));
}

/// The entries of a memtable as table entries.
pub open spec fn items_as_entries(items: Seq<(InternalKey, i64, usize)>) -> Seq<EntryView> {
    items.map_values(|p: (InternalKey, i64, usize)| EntryView { key: p.0@, pos: p.1, len: p.2 })
}

/// The entries of a memtable as table entries.
pub fn memtable_entries(items: &Vec<(InternalKey, i64, usize)>) -> (entries: Vec<Entry>)
    ensures
        entry_views(entries@) == items_as_entries(items@),
{
    let mut entries: Vec<Entry> = Vec::new();
    let mut i: usize = 0;
    while i < items.len()
        invariant
            i <= items.len(),
            entries@.len() == i,
            forall|j: int|
                0 <= j < i ==> (#[trigger] entries@[j])@ == (EntryView {
                    key: items@[j].0@,
                    pos: items@[j].1,
                    len: items@[j].2,
                }),
        decreases items.len() - i,
    {
        entries.push(Entry { key: items[i].0.clone(), pos: items[i].1, len: items[i].2 });
        i = i + 1;
    }
    assert(entry_views(entries@) =~= items_as_entries(items@));
    entries
}

/// The place that `first_at_or_after` gives: every entry before it sorts
/// before the key, and the entry at it does not.
pub proof fn lemma_first_at_or_after(entries: Seq<EntryView>, key: InternalKeyView, i: int)
    requires
        0 <= i <= entries.len(),
    ensures
        i <= first_at_or_after(entries, key, i) <= entries.len(),
        forall|k: int|
            i <= k < first_at_or_after(entries, key, i) ==> key_lt((#[trigger] entries[k]).key, key),
        first_at_or_after(entries, key, i) < entries.len() ==> !key_lt(
            entries[first_at_or_after(entries, key, i)].key,
            key,
        ),
    decreases entries.len() - i,
{
    if i < entries.len() && key_lt(entries[i].key, key) {
        lemma_first_at_or_after(entries, key, i + 1);
    }
}

/// The table that a memtable is written out as answers every lookup as the
/// memtable does: where `items` are the entries of the memtable in order, a
/// lookup in them sees the entry that the memtable shows.
pub proof fn lemma_table_answers_as_memtable(
    items: Seq<(InternalKey, i64, usize)>,
    m: Map<(Seq<char>, u64), (i64, usize)>,
    key: InternalKeyView,
)
    requires
        lists_entries_in_order(items, m),
    ensures
        seek(items_as_entries(items), key) == newest_visible(m, key.user_key, key.sequence_num),
{
    let es = items_as_entries(items);
    let uk = key.user_key;
    let bound = key.sequence_num;
    let at = first_at_or_after(es, key, 0);
    lemma_first_at_or_after(es, key, 0);
    lemma_user_key_lt_total(uk, uk);
    if at < es.len() && es[at].key.user_key == uk {
        let s = es[at].key.sequence_num;
        assert(es[at].key == items[at].0@);
        assert(m.contains_key((uk, s)));
        assert forall|t: u64| t <= bound && #[trigger] m.contains_key((uk, t)) implies t <= s by {
            let i = choose|i: int|
                0 <= i < items.len() && (#[trigger] items[i]).0@.user_key == uk
                    && items[i].0@.sequence_num == t;
            assert(es[i].key == items[i].0@);
            if i < at {
                assert(key_lt(es[i].key, key));
            } else if i > at {
                assert(key_lt(items[at].0@, items[i].0@));
            }
        }
        assert(is_newest_visible(m, uk, bound, s));
        assert(visible(m, uk, bound, Some((es[at].pos, es[at].len))));
        lemma_visible_is_newest(m, uk, bound, Some((es[at].pos, es[at].len)));
    } else {
        assert forall|t: u64| t <= bound implies !#[trigger] m.contains_key((uk, t)) by {
            if m.contains_key((uk, t)) {
                let i = choose|i: int|
                    0 <= i < items.len() && (#[trigger] items[i]).0@.user_key == uk
                        && items[i].0@.sequence_num == t;
                assert(es[i].key == items[i].0@);
                if i < at {
                    assert(key_lt(es[i].key, key));
                } else {
                    assert(es[at].key == items[at].0@);
                    lemma_user_key_lt_total(es[at].key.user_key, uk);
                    if i > at {
                        assert(key_lt(items[at].0@, items[i].0@));
                    }
                }
            }
        }
        assert(visible(m, uk, bound, None));
        lemma_visible_is_newest(m, uk, bound, None);
    }
}

/// The metadata of a table of the given entries.
pub open spec fn table_meta(entries: Seq<EntryView>, num: u64, size: u64) -> FileMetaView {
    FileMetaView {
        num,
        size,
        refs: 0,
        smallest: entries[0].key,
        largest: entries.last().key,
    }
}

/// The bytes of a table of the entries, and its metadata where it holds an
/// entry: its number, its size, and the keys of its first and last entry.
/// Fails with `Corrupt` exactly when the key of an entry is too long to be
/// written.
pub fn build_table(entries: &Vec<Entry>, number: u64) -> (r: Result<
    (Vec<u8>, Option<FileMetaData>),
    KVSError,
>)
    ensures
        match r {
            Ok((bytes, meta)) => {
                &&& all_fit(entry_views(entries@))
                &&& bytes@ == table_bytes(entry_views(entries@))
                &&& meta is Some <==> entries@.len() > 0
                &&& meta is Some ==> meta.unwrap()@ == table_meta(
                    entry_views(entries@),
                    number,
                    bytes@.len() as u64,
                )
            },
            Err(e) => e == KVSError::Corrupt && !all_fit(entry_views(entries@)),
        },
{
    let bytes = encode_table(entries)?;
    if entries.len() == 0 {
        return Ok((bytes, None));
    }
    let meta = FileMetaData {
        num: number,
        size: bytes.len() as u64,
        refs: 0,
        smallest_key: entries[0].key.clone(),
        largest_key: entries[entries.len() - 1].key.clone(),
    };
    Ok((bytes, Some(meta)))
}

/// The entries in key order with more entries put in their places, one
/// after the other.
pub open spec fn absorbed(sorted: Seq<EntryView>, more: Seq<EntryView>) -> Seq<EntryView>
    decreases more.len(),
{
    if more.len() == 0 {
        sorted
    } else {
        let before = absorbed(sorted, more.drop_last());
        before.insert(first_greater(before, more.last(), 0), more.last())
    }
}

/// The entries in key order with the entries of the tables of the files put
/// in their places, file after file. `Io` where the table of a file is
/// missing, `Corrupt` where its bytes are no table.
pub open spec fn gathered(sorted: Seq<EntryView>, files: Seq<FileMetaView>, tables: Map<u64, Vec<u8>>) -> Result<
    Seq<EntryView>,
    KVSError,
>
    decreases files.len(),
{
    if files.len() == 0 {
        Ok(sorted)
    } else {
        match gathered(sorted, files.drop_last(), tables) {
            Err(e) => Err(e),
            Ok(before) => {
                if !tables.contains_key(files.last().num) {
                    Err(KVSError::Io)
                } else {
                    match parse_table(tables[files.last().num]@) {
                        None => Err(KVSError::Corrupt),
                        Some(entries) => Ok(absorbed(before, entries)),
                    }
                }
            },
        }
    }
}

/// Puts the entries of the tables of the files in their places among
/// entries in key order.
pub fn gather_entries(tables: &Tables, files: &Vec<FileMetaData>, into: &mut Vec<Entry>) -> (r: Result<
    (),
    KVSError,
>)
    ensures
        match r {
            Ok(_) => gathered(entry_views(old(into)@), metas(files@), tables@) == Ok::<
                Seq<EntryView>,
                KVSError,
            >(entry_views(final(into)@)),
            Err(e) => gathered(entry_views(old(into)@), metas(files@), tables@) == Err::<
                Seq<EntryView>,
                KVSError,
            >(e),
        },
{
    let ghost start = entry_views(into@);
    let ghost all = metas(files@);
    let mut i: usize = 0;
    assert(all.take(0) =~= Seq::<FileMetaView>::empty());
    while i < files.len()
        invariant
            i <= files.len(),
            all == metas(files@),
            start == entry_views(old(into)@),
            gathered(start, all.take(i as int), tables@) == Ok::<Seq<EntryView>, KVSError>(
                entry_views(into@),
            ),
        decreases files.len() - i,
    {
        assert(all.take(i + 1).drop_last() =~= all.take(i as int));
        assert(all.take(i + 1).last() == files@[i as int]@);
        let entries = match tables.get(&files[i].num) {
            None => {
                proof {
                    assert(gathered(start, all.take(i + 1), tables@) == Err::<
                        Seq<EntryView>,
                        KVSError,
                    >(KVSError::Io));
                    lemma_gathered_fails(start, all, tables@, i + 1);
                }
                return Err(KVSError::Io);
            },
            Some(bytes) => match decode_table(bytes.as_slice()) {
                Ok(entries) => entries,
                Err(e) => {
                    proof {
                        assert(gathered(start, all.take(i + 1), tables@) == Err::<
                            Seq<EntryView>,
                            KVSError,
                        >(KVSError::Corrupt));
                        lemma_gathered_fails(start, all, tables@, i + 1);
                    }
                    return Err(e);
                },
            },
        };
        let ghost these = entry_views(entries@);
        let ghost before = entry_views(into@);
        let mut k: usize = 0;
        assert(these.take(0) =~= Seq::<EntryView>::empty());
        while k < entries.len()
            invariant
                k <= entries.len(),
                these == entry_views(entries@),
                entry_views(into@) == absorbed(before, these.take(k as int)),
            decreases entries.len() - k,
        {
            assert(these.take(k + 1).drop_last() =~= these.take(k as int));
            assert(these.take(k + 1).last() == entries@[k as int]@);
            insert_in_key_order(into, entries[k].clone());
            k = k + 1;
        }
        assert(these.take(k as int) =~= these);
        i = i + 1;
    }
    assert(all.take(i as int) =~= all);
    Ok(())
}

/// Where gathering fails for the first `n` files, it fails the same way for
/// all of them.
pub proof fn lemma_gathered_fails(
    sorted: Seq<EntryView>,
    files: Seq<FileMetaView>,
    tables: Map<u64, Vec<u8>>,
    n: int,
)
    requires
        0 <= n <= files.len(),
        gathered(sorted, files.take(n), tables) is Err,
    ensures
        gathered(sorted, files, tables) == gathered(sorted, files.take(n), tables),
    decreases files.len() - n,
{
    if n < files.len() {
        assert(files.take(n + 1).drop_last() =~= files.take(n));
        lemma_gathered_fails(sorted, files, tables, n + 1);
    } else {
        assert(files.take(n) =~= files);
    }
}

/// A copy of bytes.
pub fn clone_bytes(bytes: &Vec<u8>) -> (copy: Vec<u8>)
    ensures
        copy@ == bytes@,
{
    let mut copy: Vec<u8> = Vec::new();
    copy.extend_from_slice(bytes.as_slice());
    assert(copy@ =~= bytes@);
    copy
}

// ---------------------------------------------------------------------------
// The store
// ---------------------------------------------------------------------------

/// What the place and the length of a value stand for: nothing for the
/// tombstone place, else the text of the bytes of the value log at the
/// place. `Corrupt` where the place is no place, the value log is shorter,
/// or the bytes are not UTF-8.
pub open spec fn place_value(vlog: Seq<u8>, place: (i64, usize)) -> Result<
    Option<Seq<char>>,
    KVSError,
> {
    if place.0 == TOMBSTONE {
        Ok(None)
    } else if place.0 < 0 || place.0 + place.1 > vlog.len() {
        Err(KVSError::Corrupt)
    } else if valid_utf8(vlog.subrange(place.0 as int, place.0 + place.1)) {
        Ok(Some(decode_utf8(vlog.subrange(place.0 as int, place.0 + place.1))))
    } else {
        Err(KVSError::Corrupt)
    }
}

/// Whether what a call returned is what the model gives.
pub open spec fn same_outcome(
    r: Result<Option<String>, KVSError>,
    model: Result<Option<Seq<char>>, KVSError>,
) -> bool {
    match (r, model) {
        (Ok(Some(value)), Ok(Some(text))) => value@ == text,
        (Ok(None), Ok(None)) => true,
        (Err(e), Err(f)) => e == f,
        _ => false,
    }
}

/// What a read of a key gives right after a write of it.
pub open spec fn written_outcome(command: Command, value: Seq<char>) -> Result<
    Option<Seq<char>>,
    KVSError,
> {
    if command == Command::Remove {
        Ok(None)
    } else {
        Ok(Some(value))
    }
}

/// Whether `after` holds the tables of `before` and `bytes` under `number`.
pub open spec fn tables_with(
    before: Map<u64, Vec<u8>>,
    after: Map<u64, Vec<u8>>,
    number: u64,
    bytes: Seq<u8>,
) -> bool {
    &&& after.dom() == before.dom().insert(number)
    &&& after[number]@ == bytes
    &&& forall|n: u64| n != number && before.contains_key(n) ==> #[trigger] after[n] == before[n]
}

/// Whether two stores hold the same memtables, logs and sequence number.
pub open spec fn same_buffers(a: KvStore, b: KvStore) -> bool {
    &&& a.mem == b.mem
    &&& a.imm == b.imm
    &&& a.log == b.log
    &&& a.vlog_writer == b.vlog_writer
    &&& a.log_file_number == b.log_file_number
    &&& a.versions.last_sequence == b.versions.last_sequence
}

/// Whether two stores hold the same versions and numbers but for the next
/// file number.
pub open spec fn same_versions(a: KvStore, b: KvStore) -> bool {
    &&& a.versions.versions == b.versions.versions
    &&& a.versions.journal == b.versions.journal
    &&& a.versions.compact_pointer == b.versions.compact_pointer
    &&& a.versions.log_number == b.versions.log_number
    &&& a.versions.prev_log_number == b.versions.prev_log_number
}

/// The level that the table of a memtable with the given entries is placed
/// at.
pub open spec fn flush_level(before: KvStore, entries: Seq<EntryView>, use_base: bool) -> i32 {
    if use_base {
        memtable_output_level(
            before.versions.current().levels(),
            entries[0].key.user_key,
            entries.last().key.user_key,
            grandparent_limit(default_options()),
        ) as i32
    } else {
        0i32
    }
}

/// The files that writing out a memtable with the given entries adds: one
/// where there is an entry, none else.
pub open spec fn flush_files(before: KvStore, entries: Seq<EntryView>, use_base: bool) -> Seq<
    (i32, FileMetaView),
> {
    if entries.len() == 0 {
        Seq::empty()
    } else {
        seq![
            (
                flush_level(before, entries, use_base),
                table_meta(
                    entries,
                    before.versions.next_file_number,
                    table_bytes(entries).len() as u64,
                ),
            ),
        ]
    }
}

/// What `write_level0_table` does, where `items` are the entries of the
/// sealed memtable in order.
#[verifier::opaque]
pub open spec fn table_written(
    before: KvStore,
    after: KvStore,
    edit_before: VersionEditView,
    edit_after: VersionEditView,
    use_base: bool,
    r: Result<(), KVSError>,
    items: Seq<(InternalKey, i64, usize)>,
) -> bool {
    let number = before.versions.next_file_number;
    let entries = items_as_entries(items);
    &&& lists_entries_in_order(items, before.imm.unwrap()@)
    &&& same_buffers(before, after)
    &&& same_versions(before, after)
    &&& if number < u64::MAX && all_fit(entries) {
        &&& r is Ok
        &&& after.versions.next_file_number == number + 1
        &&& tables_with(before.tables@, after.tables@, number, table_bytes(entries))
        &&& edit_after == (VersionEditView {
            added: edit_before.added + flush_files(before, entries, use_base),
            ..edit_before
        })
    } else {
        &&& r == Err::<(), KVSError>(KVSError::Corrupt)
        &&& after.versions.next_file_number == number
        &&& after.tables@ == before.tables@
        &&& edit_after == edit_before
    }
}

/// The edit that writing out the sealed memtable applies.
pub open spec fn flush_edit(before: KvStore, items: Seq<(InternalKey, i64, usize)>) -> VersionEditView {
    VersionEditView {
        added: flush_files(before, items_as_entries(items), true),
        log_number: Some(before.log_file_number),
        prev_log_number: Some(0),
        ..empty_edit()
    }
}

/// What `compact_memtable` does, where `items` are the entries of the
/// sealed memtable in order.
#[verifier::opaque]
pub open spec fn flushed(
    before: KvStore,
    after: KvStore,
    r: Result<(), KVSError>,
    items: Seq<(InternalKey, i64, usize)>,
) -> bool {
    let number = before.versions.next_file_number;
    let entries = items_as_entries(items);
    let edit = flush_edit(before, items);
    let target = merged_levels(before.versions.current().levels(), edit);
    &&& lists_entries_in_order(items, before.imm.unwrap()@)
    &&& after.wf()
    &&& after.mem == before.mem
    &&& after.log == before.log
    &&& after.vlog_writer == before.vlog_writer
    &&& after.log_file_number == before.log_file_number
    &&& after.versions.last_sequence == before.versions.last_sequence
    &&& if number < u64::MAX && all_fit(entries) && levels_disjoint(target) {
        &&& r is Ok
        &&& after.imm is None
        &&& after.versions.next_file_number == number + 1
        &&& tables_with(before.tables@, after.tables@, number, table_bytes(entries))
        &&& after.versions.versions@.len() == before.versions.versions@.len() + 1
        &&& after.versions.current().levels() == target
        &&& after.versions.current().file_to_compact is None
        &&& after.versions.journal_views() == before.versions.journal_views().push(
            filled(
                edit,
                before.versions.log_number,
                before.versions.prev_log_number,
                (number + 1) as u64,
                before.versions.last_sequence,
            ),
        )
    } else {
        &&& r == Err::<(), KVSError>(KVSError::Corrupt)
        &&& after.imm == before.imm
        &&& after.versions.versions == before.versions.versions
        &&& after.versions.next_file_number >= number
    }
}

/// Whether a compaction is a trivial move.
pub open spec fn is_move(c: Compaction) -> bool {
    c.input_files(0).len() == 1 && c.input_files(1).len() == 0 && total_size(c.input_files(2))
        <= grandparent_limit(default_options())
}

/// The edit of a trivial move: the one input file leaves its level and
/// joins the next.
pub open spec fn move_edit(c: Compaction) -> VersionEditView {
    VersionEditView {
        added: c.edit@.added.push(((c.level + 1) as i32, c.input_files(0)[0])),
        deleted: c.edit@.deleted.insert((c.level, c.input_files(0)[0].num)),
        ..c.edit@
    }
}

/// What a trivial move does.
#[verifier::opaque]
pub open spec fn moved(before: KvStore, after: KvStore, c: Compaction, r: Result<(), KVSError>) -> bool {
    let target = merged_levels(before.versions.current().levels(), move_edit(c));
    &&& after.wf()
    &&& same_buffers(before, after)
    &&& after.tables == before.tables
    &&& after.versions.next_file_number == before.versions.next_file_number
    &&& if levels_disjoint(target) {
        &&& r is Ok
        &&& after.versions.versions@.len() == before.versions.versions@.len() + 1
        &&& after.versions.current().levels() == target
        &&& after.versions.current().file_to_compact is None
    } else {
        &&& r == Err::<(), KVSError>(KVSError::Corrupt)
        &&& after.versions == before.versions
    }
}

/// The entries of the input tables of a compaction, in key order.
pub open spec fn input_entries(c: Compaction, tables: Map<u64, Vec<u8>>) -> Result<
    Seq<EntryView>,
    KVSError,
> {
    match gathered(Seq::empty(), c.input_files(0), tables) {
        Err(e) => Err(e),
        Ok(first) => gathered(first, c.input_files(1), tables),
    }
}

/// The entries of the output tables of a compaction.
pub open spec fn output_tables(c: Compaction, entries: Seq<EntryView>, snapshot: u64) -> Seq<
    Seq<EntryView>,
> {
    merge_outputs(
        merge_state(
            merge_start(c.grandparent_idx as int, c.overlapped_bytes as nat),
            entries,
            entries.len() as int,
            c.rules(snapshot),
        ),
    )
}

/// The files of the output tables: each at the level below that of the
/// compaction, under the file numbers from `first` on.
pub open spec fn output_files(outputs: Seq<Seq<EntryView>>, level: i32, first: u64) -> Seq<
    (i32, FileMetaView),
> {
    Seq::new(
        outputs.len(),
        |t: int|
            (
                (level + 1) as i32,
                table_meta(outputs[t], (first + t) as u64, table_bytes(outputs[t]).len() as u64),
            ),
    )
}

/// Whether a file number is that of an input file of a compaction.
pub open spec fn is_input(c: Compaction, num: u64) -> bool {
    names_file(c.input_files(0), num) || names_file(c.input_files(1), num)
}

/// The edit of a compaction: the output files are added and the input
/// files are deleted.
pub open spec fn compaction_edit(c: Compaction, outputs: Seq<Seq<EntryView>>, first: u64) -> VersionEditView {
    VersionEditView {
        added: c.edit@.added + output_files(outputs, c.level, first),
        deleted: Set::new(
            |p: (i32, u64)|
                c.edit@.deleted.contains(p) || (p.0 == c.level && names_file(c.input_files(0), p.1))
                    || (p.0 == c.level + 1 && names_file(c.input_files(1), p.1)),
        ),
        ..c.edit@
    }
}

/// Whether every output table can be written.
pub open spec fn outputs_fit(outputs: Seq<Seq<EntryView>>) -> bool {
    forall|t: int| 0 <= t < outputs.len() ==> all_fit(#[trigger] outputs[t])
}

/// What `do_compaction_work` does for a compaction.
#[verifier::opaque]
pub open spec fn compacted(before: KvStore, after: KvStore, c: Compaction, r: Result<(), KVSError>) -> bool {
    &&& after.wf()
    &&& same_buffers(before, after)
    &&& match input_entries(c, before.tables@) {
        Err(e) => r == Err::<(), KVSError>(e) && after.versions == before.versions && after.tables
            == before.tables,
        Ok(entries) => {
            let outputs = output_tables(c, entries, before.versions.last_sequence);
            let first = before.versions.next_file_number;
            let edit = compaction_edit(c, outputs, first);
            let target = merged_levels(before.versions.current().levels(), edit);
            if first + outputs.len() <= u64::MAX && outputs_fit(outputs) && levels_disjoint(
                target,
            ) {
                &&& r is Ok
                &&& after.versions.next_file_number == first + outputs.len()
                &&& after.versions.versions@.len() == before.versions.versions@.len() + 1
                &&& after.versions.current().levels() == target
                &&& after.versions.current().file_to_compact is None
                &&& forall|n: u64|
                    #![trigger after.tables@.contains_key(n)]
                    after.tables@.contains_key(n) <==> (before.tables@.contains_key(n) || first <= n
                        < first + outputs.len()) && !is_input(c, n)
                &&& forall|t: int|
                    0 <= t < outputs.len() && !is_input(c, (first + t) as u64) ==> (
                    #[trigger] after.tables@[(first + t) as u64])@ == table_bytes(outputs[t])
                &&& forall|n: u64|
                    before.tables@.contains_key(n) && !(first <= n < first + outputs.len())
                        && !is_input(c, n) ==> #[trigger] after.tables@[n] == before.tables@[n]
            } else {
                &&& r == Err::<(), KVSError>(KVSError::Corrupt)
                &&& after.versions.versions == before.versions.versions
                &&& after.versions.next_file_number >= first
            }
        },
    }
}

/// What `background_compaction` does: it writes out the sealed memtable
/// where there is one; else it does nothing where no compaction is due;
/// else it runs the compaction that is picked, as a trivial move or as a
/// merge.
pub open spec fn background_outcome(before: KvStore, after: KvStore, r: Result<(), KVSError>) -> bool {
    if before.imm is Some {
        exists|items: Seq<(InternalKey, i64, usize)>| #[trigger] flushed(before, after, r, items)
    } else if !score_at_least_one(before.versions.current().compaction_score)
        && before.versions.current().file_to_compact is None {
        r is Ok && after == before
    } else {
        exists|c: Compaction| #[trigger]
            is_picked(before.versions, c) && (if is_move(c) {
                moved(before, after, c, r)
            } else {
                compacted(before, after, c, r)
            })
    }
}

/// Whether `after` is `before` with its memtable sealed, a fresh memtable
/// and a fresh operation log under the next file number.
pub open spec fn is_sealed(before: KvStore, after: KvStore) -> bool {
    &&& after.wf()
    &&& after.imm == Some(before.mem)
    &&& after.mem@ == Map::<(Seq<char>, u64), (i64, usize)>::empty()
    &&& after.mem.spec_size() == 0
    &&& after.log.wf()
    &&& after.log@ == Seq::<u8>::empty()
    &&& after.log_file_number == before.versions.next_file_number
    &&& after.versions.next_file_number == before.versions.next_file_number + 1
    &&& same_versions(before, after)
    &&& after.versions.last_sequence == before.versions.last_sequence
    &&& after.tables == before.tables
    &&& after.vlog_writer == before.vlog_writer
    &&& after.pending_outputs == before.pending_outputs
}

/// The first step of making room: a sealed memtable that still waits is
/// written out.
pub open spec fn waiting_flushed(before: KvStore, after: KvStore, r: Result<(), KVSError>) -> bool {
    if before.imm is Some {
        exists|items: Seq<(InternalKey, i64, usize)>| #[trigger] flushed(before, after, r, items)
    } else {
        r is Ok && after == before
    }
}

/// The second step of making room: a compaction is run where level 0 holds
/// too many files.
pub open spec fn level0_relieved(before: KvStore, after: KvStore, r: Result<(), KVSError>) -> bool {
    if before.versions.current().level(0).len() >= L0_STOP_WRITES_TRIGGER {
        background_outcome(before, after, r)
    } else {
        r is Ok && after == before
    }
}

/// What making room does where room is needed: the sealed memtable that
/// waits is written out, level 0 is relieved, the memtable is sealed, and
/// the background work that is then due is run. The first step that fails
/// ends it with its error; it fails with `Corrupt` where no file number is
/// left for the new operation log.
pub open spec fn room_made(before: KvStore, after: KvStore, r: Result<(), KVSError>) -> bool {
    exists|a: KvStore, ra: Result<(), KVSError>| #[trigger]
        waiting_flushed(before, a, ra) && (if ra is Err {
            after == a && r == ra
        } else {
            exists|b: KvStore, rb: Result<(), KVSError>| #[trigger]
                level0_relieved(a, b, rb) && (if rb is Err {
                    after == b && r == rb
                } else if b.versions.next_file_number == u64::MAX {
                    after == b && r == Err::<(), KVSError>(KVSError::Corrupt)
                } else {
                    exists|c: KvStore| #[trigger] is_sealed(b, c) && background_outcome(c, after, r)
                })
        })
}

/// What making room does: nothing where the memtable is within its size
/// and no room is forced, else what `room_made` says.
pub open spec fn room_step(before: KvStore, after: KvStore, r: Result<(), KVSError>, force: bool) -> bool {
    if !force && before.mem.spec_size() <= COMPACT_MEMTABLE_THRESHOLD {
        r is Ok && after == before
    } else {
        room_made(before, after, r)
    }
}

/// Whether `after` is `before` with one write entered: the record at the
/// end of the operation log, the value at the end of the value log, and the
/// key with the next sequence number and the place of the value in the
/// memtable.
pub open spec fn entered(
    before: KvStore,
    after: KvStore,
    command: Command,
    key: Seq<char>,
    value: Seq<char>,
) -> bool {
    let seq = (before.versions.last_sequence + 1) as u64;
    let place = if command == Command::Remove {
        TOMBSTONE
    } else {
        before.vlog_writer@.len() as i64
    };
    &&& after.wf()
    &&& after.log@ == before.log@ + record_line(RecordView { cmd: command, key, value })
    &&& after.vlog_writer@ == before.vlog_writer@ + encode_utf8(value)
    &&& after.mem@ == before.mem@.insert((key, seq), (place, encode_utf8(value).len() as usize))
    &&& after.mem.spec_size() == (if before.mem.spec_size() + entry_cost(key) > u64::MAX {
        u64::MAX as nat
    } else {
        before.mem.spec_size() + entry_cost(key)
    })
    &&& after.versions == (VersionSet { last_sequence: seq, ..before.versions })
    &&& after.imm == before.imm
    &&& after.tables == before.tables
    &&& after.pending_outputs == before.pending_outputs
    &&& after.log_file_number == before.log_file_number
}

/// What a write does: room is made; where that fails, the write fails with
/// its error; where no sequence number is left or the place of the value
/// does not fit a signed offset, it fails with `Corrupt`; else the write is
/// entered.
pub open spec fn write_outcome(
    before: KvStore,
    after: KvStore,
    r: Result<(), KVSError>,
    command: Command,
    key: Seq<char>,
    value: Seq<char>,
) -> bool {
    exists|m: KvStore, rm: Result<(), KVSError>| #[trigger]
        room_step(before, m, rm, false) && (if rm is Err {
            r == rm && after == m
        } else if m.versions.last_sequence >= MAX_SEQUENCE_NUM || m.vlog_writer@.len() > i64::MAX {
            r == Err::<(), KVSError>(KVSError::Corrupt) && after == m
        } else {
            r is Ok && entered(m, after, command, key, value)
        })
}

/// The leveled store.
pub struct KvStore {
    /// The memtable that takes the writes.
    pub mem: MemTable,
    /// The sealed memtable that waits to be written out.
    pub imm: Option<MemTable>,
    /// The operation log.
    pub log: LogWriter,
    /// The value log.
    pub vlog_writer: VLogWriter,
    /// The versions of the file set.
    pub versions: VersionSet,
    /// The bytes of every table, by file number.
    pub tables: Tables,
    /// The numbers of the tables that are being written.
    pub pending_outputs: Vec<u64>,
    /// The number of the file of the operation log.
    pub log_file_number: u64,
}

impl KvStore {
    /// The logs and the file set are well formed.
    pub open spec fn wf(&self) -> bool {
        &&& self.log.wf()
        &&& self.vlog_writer.wf()
        &&& self.versions.wf()
    }

    /// The key that a read of `key` looks for: the newest entry of the user
    /// key up to the latest write.
    pub open spec fn seek_key(&self, key: Seq<char>) -> InternalKeyView {
        InternalKeyView {
            sequence_num: self.versions.last_sequence,
            user_key: key,
            command: Command::Seek,
        }
    }

    /// What a read of `key` gives: the entry that the memtable shows for
    /// the key, else the one that the sealed memtable shows, else the one
    /// that the search of the tables of the current version finds; and for
    /// that entry the value at its place in the value log, or nothing for a
    /// tombstone.
    pub open spec fn spec_get(&self, key: Seq<char>) -> Result<Option<Seq<char>>, KVSError> {
        let bound = self.versions.last_sequence;
        if newest_visible(self.mem@, key, bound) is Some {
            place_value(self.vlog_writer@, newest_visible(self.mem@, key, bound).unwrap())
        } else if self.imm is Some && newest_visible(self.imm.unwrap()@, key, bound) is Some {
            place_value(self.vlog_writer@, newest_visible(self.imm.unwrap()@, key, bound).unwrap())
        } else {
            match search_files(
                candidates(self.versions.current().levels(), self.seek_key(key)),
                self.tables@,
                self.seek_key(key),
            ) {
                Err(e) => Err(e),
                Ok(None) => Ok(None),
                Ok(Some(place)) => place_value(self.vlog_writer@, place),
            }
        }
    }

    /// A store without data.
    pub fn new() -> (store: KvStore)
        ensures
            store.wf(),
            store.mem@ == Map::<(Seq<char>, u64), (i64, usize)>::empty(),
            store.mem.spec_size() == 0,
            store.imm is None,
            store.log@ == Seq::<u8>::empty(),
            store.vlog_writer@ == Seq::<u8>::empty(),
            store.versions.last_sequence == 0,
            store.versions.next_file_number == 1,
            store.versions.versions@.len() == 1,
            store.versions.current().file_to_compact is None,
            forall|l: int|
                0 <= l < NUM_LEVELS ==> (#[trigger] store.versions.current().level(l)).len() == 0,
            store.tables@ == Map::<u64, Vec<u8>>::empty(),
            store.log_file_number == 0,
            store.pending_outputs@.len() == 0,
            tidy(store),
    {
        let mem = MemTable::empty();
        let log = LogWriter::over(Vec::new());
        let vlog_writer = VLogWriter::over(Vec::new());
        let store = KvStore {
            mem,
            imm: None,
            log,
            vlog_writer,
            versions: VersionSet::new(),
            tables: HashMap::new(),
            pending_outputs: Vec::new(),
            log_file_number: 0,
        };
        proof {
            lemma_fresh_store_is_tidy(store);
        }
        store
    }

    /// A store without data.
    pub fn open() -> (r: Result<KvStore, KVSError>)
        ensures
            r is Ok,
            r.unwrap().wf(),
            r.unwrap().mem@ == Map::<(Seq<char>, u64), (i64, usize)>::empty(),
            r.unwrap().mem.spec_size() == 0,
            r.unwrap().imm is None,
            r.unwrap().vlog_writer@ == Seq::<u8>::empty(),
            r.unwrap().versions.last_sequence == 0,
            tidy(r.unwrap()),
    {
        Ok(KvStore::new())
    }

    /// The value at a place of the value log.
    fn read_value(&self, place: (i64, usize)) -> (r: Result<Option<String>, KVSError>)
        requires
            self.wf(),
        ensures
            same_outcome(r, place_value(self.vlog_writer@, place)),
    {
        if place.0 == TOMBSTONE {
            return Ok(None);
        }
        if place.0 < 0 {
            return Err(KVSError::Corrupt);
        }
        let mut reader = VLogReader::over(self.vlog_writer.as_slice());
        match reader.get_value(place.0 as u64, place.1) {
            Ok(value) => Ok(Some(value)),
            Err(e) => Err(e),
        }
    }

    /// The value of a key: what the memtable shows for it, else what the
    /// sealed memtable shows, else what the tables of the current version
    /// hold. A key whose newest entry is a tombstone has no value.
    pub fn get(&self, key: String) -> (r: Result<Option<String>, KVSError>)
        requires
            self.wf(),
        ensures
            same_outcome(r, self.spec_get(key@)),
    {
        let bound = self.versions.last_sequence();
        let ikey = InternalKey::new(&key, bound, Command::Seek);
        let found = match self.mem.get(&ikey) {
            Ok(found) => found,
            Err(e) => {
                return Err(e);
            },
        };
        proof {
            lemma_visible_is_newest(self.mem@, key@, bound, found);
        }
        match found {
            Some(place) => {
                return self.read_value(place);
            },
            None => {},
        }
        match &self.imm {
            Some(sealed) => {
                let found = match sealed.get(&ikey) {
                    Ok(found) => found,
                    Err(e) => {
                        return Err(e);
                    },
                };
                proof {
                    lemma_visible_is_newest(sealed@, key@, bound, found);
                }
                match found {
                    Some(place) => {
                        return self.read_value(place);
                    },
                    None => {},
                }
            },
            None => {},
        }
        let current = &self.versions.versions[self.versions.versions.len() - 1];
        assert(ikey@ == self.seek_key(key@));
        match current.get(&ikey, &self.tables) {
            Err(e) => Err(e),
            Ok(None) => Ok(None),
            Ok(Some(place)) => self.read_value(place),
        }
    }

    /// Binds a key to a value.
    pub fn set(&mut self, key: String, value: String) -> (r: Result<(), KVSError>)
        requires
            old(self).wf(),
        ensures
            final(self).wf(),
            write_outcome(*old(self), *final(self), r, Command::Put, key@, value@),
            tidy(*old(self)) ==> tidy(*final(self)),
            r is Ok ==> final(self).spec_get(key@) == Ok::<Option<Seq<char>>, KVSError>(
                Some(value@),
            ) && final(self).versions.last_sequence == old(self).versions.last_sequence + 1,
            old(self).mem.spec_size() <= COMPACT_MEMTABLE_THRESHOLD
                && old(self).versions.last_sequence < MAX_SEQUENCE_NUM
                && old(self).vlog_writer@.len() <= i64::MAX ==> r is Ok,
    {
        self.write(Command::Put, key, value)
    }

    /// Unbinds a key by writing a tombstone for it, whether or not the key
    /// is bound.
    pub fn remove(&mut self, key: String) -> (r: Result<(), KVSError>)
        requires
            old(self).wf(),
        ensures
            final(self).wf(),
            write_outcome(*old(self), *final(self), r, Command::Remove, key@, Seq::<char>::empty()),
            tidy(*old(self)) ==> tidy(*final(self)),
            r is Ok ==> final(self).spec_get(key@) == Ok::<Option<Seq<char>>, KVSError>(None)
                && final(self).versions.last_sequence == old(self).versions.last_sequence + 1,
            old(self).mem.spec_size() <= COMPACT_MEMTABLE_THRESHOLD
                && old(self).versions.last_sequence < MAX_SEQUENCE_NUM
                && old(self).vlog_writer@.len() <= i64::MAX ==> r is Ok,
    {
        self.write(Command::Remove, key, String::new())
    }

    /// Makes room in the memtable, then appends the record to the
    /// operation log and the value to the value log, and enters the key
    /// with the next sequence number and the place of the value into the
    /// memtable. A read of the key right after gives what was written.
    ///
    /// Succeeds where the memtable has room, a sequence number is left and
    /// the place of the value fits a signed offset. Fails with `Corrupt`
    /// where no sequence number is left or the place does not fit, and with
    /// the error of the compaction that making room ran into.
    pub fn write(&mut self, command: Command, key: String, value: String) -> (r: Result<
        (),
        KVSError,
    >)
        requires
            old(self).wf(),
        ensures
            final(self).wf(),
            write_outcome(*old(self), *final(self), r, command, key@, value@),
            tidy(*old(self)) ==> tidy(*final(self)),
            r is Ok ==> final(self).spec_get(key@) == written_outcome(command, value@)
                && final(self).versions.last_sequence == old(self).versions.last_sequence + 1,
            old(self).mem.spec_size() <= COMPACT_MEMTABLE_THRESHOLD
                && old(self).versions.last_sequence < MAX_SEQUENCE_NUM
                && old(self).vlog_writer@.len() <= i64::MAX ==> r is Ok,
    {
        let ghost before = *self;
        let rm = self.make_room_for_write(false);
        let ghost room = *self;
        assert(room_step(before, room, rm, false));
        match rm {
            Ok(_) => {},
            Err(e) => {
                return Err(e);
            },
        }
        if self.versions.last_sequence >= MAX_SEQUENCE_NUM {
            return Err(KVSError::Corrupt);
        }
        let pos = self.vlog_writer.pos();
        proof {
            self.vlog_writer.lemma_position();
        }
        if pos > i64::MAX as u64 {
            return Err(KVSError::Corrupt);
        }
        proof {
            if tidy(before) {
                lemma_room_keeps_tidy(before, room, rm, false);
            }
        }
        let seq: u64 = self.versions.last_sequence + 1;
        let line = encode_line(command, key.as_str(), value.as_str());
        let _ = self.log.add_record(line.as_slice());
        let bytes = value.as_str().as_bytes();
        let _ = self.vlog_writer.add_record(bytes);
        let ikey = InternalKey::new(&key, seq, command);
        let ghost mem_before = self.mem@;
        let _ = self.mem.insert(ikey, pos, bytes.len());
        self.versions.set_last_sequence(seq);
        proof {
            let place: i64 = if command == Command::Remove {
                TOMBSTONE
            } else {
                pos as i64
            };
            assert(self.mem@ == mem_before.insert((key@, seq), (place, bytes@.len() as usize)));
            lemma_newest_at_bound(self.mem@, key@, seq);
            if command != Command::Remove {
                let vlog = self.vlog_writer@;
                assert(vlog.subrange(pos as int, pos + bytes@.len()) =~= bytes@);
                encode_utf8_valid_utf8(value@);
                encode_utf8_decode_utf8(value@);
            }
            assert(entered(room, *self, command, key@, value@));
            if tidy(before) {
                crate::engines::kv::consistency::lemma_entered_keeps_tidy(
                    room,
                    *self,
                    command,
                    key@,
                    value@,
                );
            }
        }
        Ok(())
    }

    /// Makes room for a write. Where the memtable is within its size and
    /// no room is forced, nothing is done. Else a sealed memtable that
    /// still waits is written out, a compaction is run where level 0 holds
    /// too many files, the memtable is sealed, a fresh memtable and a fresh
    /// operation log take its place, and the sealed memtable is written out
    /// as a table.
    pub fn make_room_for_write(&mut self, force: bool) -> (r: Result<(), KVSError>)
        requires
            old(self).wf(),
        ensures
            final(self).wf(),
            final(self).versions.last_sequence == old(self).versions.last_sequence,
            final(self).vlog_writer == old(self).vlog_writer,
            room_step(*old(self), *final(self), r, force),
            tidy(*old(self)) ==> tidy(*final(self)),
            r is Ok && (force || old(self).mem.spec_size() > COMPACT_MEMTABLE_THRESHOLD)
                ==> final(self).mem@ == Map::<(Seq<char>, u64), (i64, usize)>::empty()
                && final(self).mem.spec_size() == 0 && final(self).imm is None,
    {
        if !force && self.mem.size() <= COMPACT_MEMTABLE_THRESHOLD {
            return Ok(());
        }
        let ghost start = *self;
        if self.imm.is_some() {
            let ra = self.compact_memtable();
            assert(waiting_flushed(start, *self, ra));
            match ra {
                Ok(_) => {},
                Err(e) => {
                    return Err(e);
                },
            }
        } else {
            assert(waiting_flushed(start, *self, Ok(())));
        }
        let ghost flushed_store = *self;
        if self.versions.current_num_level_files(0) >= L0_STOP_WRITES_TRIGGER {
            let rb = self.background_compaction();
            assert(level0_relieved(flushed_store, *self, rb));
            match rb {
                Ok(_) => {},
                Err(e) => {
                    return Err(e);
                },
            }
        } else {
            assert(level0_relieved(flushed_store, *self, Ok(())));
        }
        let ghost relieved = *self;
        if self.versions.next_file_number == u64::MAX {
            return Err(KVSError::Corrupt);
        }
        let new_log_number = self.versions.new_file_number();
        let mut fresh = MemTable::empty();
        self.log = LogWriter::over(Vec::new());
        self.log_file_number = new_log_number;
        core::mem::swap(&mut self.mem, &mut fresh);
        self.imm = Some(fresh);
        let ghost sealed = *self;
        assert(is_sealed(relieved, sealed));
        let r = self.schedule_compaction();
        assert(is_sealed(relieved, sealed) && background_outcome(sealed, *self, r));
        r
    }

    /// Runs the background work that is due.
    pub fn schedule_compaction(&mut self) -> (r: Result<(), KVSError>)
        requires
            old(self).wf(),
        ensures
            final(self).wf(),
            background_outcome(*old(self), *final(self), r),
            tidy(*old(self)) ==> tidy(*final(self)),
            final(self).versions.last_sequence == old(self).versions.last_sequence,
            final(self).vlog_writer == old(self).vlog_writer,
            final(self).mem == old(self).mem,
            final(self).log == old(self).log,
            final(self).log_file_number == old(self).log_file_number,
            r is Ok && old(self).imm is Some ==> final(self).imm is None,
            old(self).imm is None ==> final(self).imm is None,
    {
        self.background_compaction()
    }

    /// Writes the sealed memtable out as a table: the entries of the
    /// memtable in order are written as the bytes of a table under the next
    /// file number, and, where the table holds an entry, the file is added
    /// to the edit at the level that `pick_level_for_memtable_output` gives
    /// for its range of user keys, or at level 0 where no base version is
    /// used. Fails with `Corrupt`, changing nothing, exactly when no file
    /// number is left or the key of an entry is too long to be written.
    pub fn write_level0_table(&mut self, edit: &mut VersionEdit, use_base: bool) -> (r: Result<
        (),
        KVSError,
    >)
        requires
            old(self).wf(),
            old(self).imm is Some,
            old(edit).levels_in_range(),
        ensures
            final(self).wf(),
            final(edit).levels_in_range(),
            exists|items: Seq<(InternalKey, i64, usize)>| #[trigger]
                table_written(*old(self), *final(self), old(edit)@, final(edit)@, use_base, r, items),
            final(self).versions.last_sequence == old(self).versions.last_sequence,
            final(self).vlog_writer == old(self).vlog_writer,
            final(self).mem == old(self).mem,
            final(self).log == old(self).log,
            final(self).log_file_number == old(self).log_file_number,
            final(self).imm == old(self).imm,
    {
        let items = match &self.imm {
            Some(sealed) => sealed.iter(),
            None => {
                return Err(KVSError::Corrupt);
            },
        };
        let ghost before = *self;
        let ghost edit_before = edit@;
        proof {
            reveal(table_written);
        }
        if self.versions.next_file_number == u64::MAX {
            assert(table_written(before, *self, edit_before, edit@, use_base, Err(KVSError::Corrupt), items@));
            return Err(KVSError::Corrupt);
        }
        let number = self.versions.next_file_number;
        self.pending_outputs.push(number);
        let entries = memtable_entries(&items);
        let built = build_table(&entries, number);
        let _ = self.pending_outputs.pop();
        assert(self.pending_outputs@ =~= before.pending_outputs@);
        let (bytes, meta) = match built {
            Ok(pair) => pair,
            Err(e) => {
                assert(table_written(before, *self, edit_before, edit@, use_base, Err(KVSError::Corrupt), items@));
                return Err(e);
            },
        };
        let _ = self.versions.new_file_number();
        let ghost views = items_as_entries(items@);
        assert(views == entry_views(entries@));
        self.tables.insert(number, bytes);
        match meta {
            None => {
                assert(edit@.added =~= edit_before.added + flush_files(before, views, use_base));
            },
            Some(file) => {
                let mut level: i32 = 0;
                if use_base {
                    let current = &self.versions.versions[self.versions.versions.len() - 1];
                    level = current.pick_level_for_memtable_output(
                        &file.smallest_key.user_key,
                        &file.largest_key.user_key,
                    );
                }
                edit.add_file(level, file);
                assert(level == flush_level(before, views, use_base));
                assert(edit@.added =~= edit_before.added + flush_files(before, views, use_base));
            },
        }
        proof {
            assert(self.tables@.dom() =~= before.tables@.dom().insert(number));
            assert(tables_with(before.tables@, self.tables@, number, table_bytes(views)));
            assert(table_written(before, *self, edit_before, edit@, use_base, Ok(()), items@));
        }
        Ok(())
    }

    /// Writes the sealed memtable out as a table and applies the edit that
    /// adds the table to the file set; then there is no sealed memtable.
    /// Fails with `Corrupt`, keeping the sealed memtable and the versions,
    /// exactly when the table cannot be written or the file would overlap
    /// the files of its level.
    pub fn compact_memtable(&mut self) -> (r: Result<(), KVSError>)
        requires
            old(self).wf(),
            old(self).imm is Some,
        ensures
            final(self).wf(),
            exists|items: Seq<(InternalKey, i64, usize)>| #[trigger]
                flushed(*old(self), *final(self), r, items),
            tidy(*old(self)) ==> tidy(*final(self)),
            tidy(*old(self)) && r is Ok ==> forall|key: Seq<char>|
                #[trigger] final(self).spec_get(key) == old(self).spec_get(key),
            final(self).versions.last_sequence == old(self).versions.last_sequence,
            final(self).vlog_writer == old(self).vlog_writer,
            final(self).mem == old(self).mem,
            final(self).log == old(self).log,
            final(self).log_file_number == old(self).log_file_number,
            r is Ok ==> final(self).imm is None,
            r is Err ==> final(self).imm == old(self).imm,
    {
        let ghost before = *self;
        proof {
            reveal(table_written);
            reveal(flushed);
        }
        let mut edit = VersionEdit::new();
        let ghost empty_edit = edit@;
        let written = self.write_level0_table(&mut edit, true);
        let ghost items = choose|items: Seq<(InternalKey, i64, usize)>| #[trigger]
            table_written(before, *self, empty_edit, edit@, true, written, items);
        match written {
            Ok(()) => {},
            Err(e) => {
                proof {
                    assert(flushed(before, *self, Err(e), items));
                    if tidy(before) {
                        lemma_flushed_keeps_tidy(before, *self, Err(e), items);
                    }
                }
                return Err(e);
            },
        }
        edit.prev_log_number = Some(0);
        edit.log_number = Some(self.log_file_number);
        let ghost full_edit = edit@;
        assert(full_edit == flush_edit(before, items));
        match self.versions.log_and_apply(edit) {
            Ok(()) => {},
            Err(e) => {
                proof {
                    assert(flushed(before, *self, Err(e), items));
                    if tidy(before) {
                        lemma_flushed_keeps_tidy(before, *self, Err(e), items);
                    }
                }
                return Err(e);
            },
        }
        self.imm = None;
        proof {
            assert(flushed(before, *self, Ok(()), items));
            if tidy(before) {
                lemma_flushed_keeps_tidy(before, *self, Ok(()), items);
                assert forall|key: Seq<char>| #[trigger] self.spec_get(key) == before.spec_get(
                    key,
                ) by {
                    lemma_flush_keeps_reads(before, *self, items, key);
                }
            }
        }
        Ok(())
    }

    /// Runs the compaction that is due. A sealed memtable is written out
    /// first. Else the compaction that `pick_compaction` gives is run:
    /// where it is a trivial move, the one file is moved to the next level
    /// by an edit alone; else its inputs are merged and written out as
    /// tables of the next level, the inputs are marked as deleted, the edit
    /// is applied, and the tables of the inputs are removed. Where nothing
    /// is due, nothing is done.
    pub fn background_compaction(&mut self) -> (r: Result<(), KVSError>)
        requires
            old(self).wf(),
        ensures
            final(self).wf(),
            background_outcome(*old(self), *final(self), r),
            tidy(*old(self)) ==> tidy(*final(self)),
            final(self).versions.last_sequence == old(self).versions.last_sequence,
            final(self).vlog_writer == old(self).vlog_writer,
            final(self).mem == old(self).mem,
            final(self).log == old(self).log,
            final(self).log_file_number == old(self).log_file_number,
            r is Ok && old(self).imm is Some ==> final(self).imm is None,
            old(self).imm is None ==> final(self).imm is None,
    {
        let ghost before = *self;
        proof {
            reveal(moved);
        }
        if self.imm.is_some() {
            return self.compact_memtable();
        }
        let picked = self.versions.pick_compaction();
        match picked {
            None => Ok(()),
            Some(c) => {
                let ghost picked_compaction = c;
                assert(is_picked(before.versions, picked_compaction));
                let mut c = c;
                if c.is_trivial_move() {
                    let f = c.input(0, 0);
                    c.edit.remove_file(c.level, f.num);
                    c.edit.add_file(c.level + 1, f);
                    assert(c.edit@ == move_edit(picked_compaction));
                    let r = self.versions.log_and_apply(c.edit);
                    proof {
                        assert(moved(before, *self, picked_compaction, r));
                        assert(background_outcome(before, *self, r));
                        if tidy(before) {
                            lemma_background_keeps_tidy(before, *self, r);
                        }
                    }
                    r
                } else {
                    let r = self.do_compaction_work(c);
                    proof {
                        assert(background_outcome(before, *self, r));
                        if tidy(before) {
                            lemma_background_keeps_tidy(before, *self, r);
                        }
                    }
                    r
                }
            },
        }
    }

    /// Merges the inputs of a compaction into tables of the next level.
    ///
    /// The entries of the tables of the input files, in key order, go
    /// through the merge loop; each output table is written under a fresh
    /// file number and added to the edit at the next level; the input files
    /// are marked as deleted; the edit is applied; and the tables of the
    /// input files are removed. Fails with the error of an input table that
    /// is missing or broken, and with `Corrupt` where no file numbers are
    /// left, the key of an entry is too long to be written, or the files of
    /// a level would overlap; the versions then stay as they were.
    #[verifier::loop_isolation(false)]
    #[verifier::rlimit(40)]
    pub fn do_compaction_work(&mut self, c: Compaction) -> (r: Result<(), KVSError>)
        requires
            old(self).wf(),
            c.wf(),
            c.version is Some,
            0 <= c.level < NUM_LEVELS - 1,
            c.edit.levels_in_range(),
        ensures
            final(self).wf(),
            compacted(*old(self), *final(self), c, r),
            final(self).versions.last_sequence == old(self).versions.last_sequence,
            final(self).vlog_writer == old(self).vlog_writer,
            final(self).mem == old(self).mem,
            final(self).log == old(self).log,
            final(self).log_file_number == old(self).log_file_number,
            final(self).imm == old(self).imm,
    {
        let ghost before = *self;
        let ghost given = c;
        proof {
            reveal(compacted);
        }
        let mut c = c;
        let mut entries: Vec<Entry> = Vec::new();
        assert(entry_views(entries@) =~= Seq::<EntryView>::empty());
        match gather_entries(&self.tables, &c.inputs[0], &mut entries) {
            Ok(()) => {},
            Err(e) => {
                return Err(e);
            },
        }
        match gather_entries(&self.tables, &c.inputs[1], &mut entries) {
            Ok(()) => {},
            Err(e) => {
                return Err(e);
            },
        }
        let ghost all = entry_views(entries@);
        assert(input_entries(given, before.tables@) == Ok::<Seq<EntryView>, KVSError>(all));
        let snapshot = self.versions.last_sequence();
        let outputs = c.merge_entries(&entries, snapshot);
        let ghost out = table_views(outputs@);
        assert(out == output_tables(given, all, snapshot));
        let level = c.level;
        let first = self.versions.next_file_number;
        if outputs.len() as u64 > u64::MAX - first {
            return Err(KVSError::Corrupt);
        }
        // Write every output table before anything is changed.
        let mut built: Vec<(Vec<u8>, FileMetaData)> = Vec::new();
        let mut t: usize = 0;
        while t < outputs.len()
            invariant
                t <= outputs.len(),
                *self == before,
                self.wf(),
                input_entries(given, before.tables@) == Ok::<Seq<EntryView>, KVSError>(all),
                out == output_tables(given, all, before.versions.last_sequence),
                first == before.versions.next_file_number,
                out == table_views(outputs@),
                first + outputs@.len() <= u64::MAX,
                built@.len() == t,
                forall|k: int| 0 <= k < outputs@.len() ==> (#[trigger] out[k]).len() > 0,
                forall|k: int| 0 <= k < t ==> all_fit(#[trigger] out[k]),
                forall|k: int|
                    0 <= k < t ==> (#[trigger] built@[k]).0@ == table_bytes(out[k]) && built@[k].1@
                        == table_meta(out[k], (first + k) as u64, table_bytes(out[k]).len() as u64),
            decreases outputs.len() - t,
        {
            assert(out[t as int] == entry_views(outputs@[t as int]@));
            match build_table(&outputs[t], first + t as u64) {
                Err(e) => {
                    proof {
                        reveal(compacted);
                        assert(!all_fit(out[t as int]));
                        assert(!outputs_fit(out));
                    }
                    return Err(e);
                },
                Ok((bytes, meta)) => {
                    match meta {
                        Some(file) => {
                            built.push((bytes, file));
                        },
                        None => {
                            assert(false);
                        },
                    }
                },
            }
            t = t + 1;
        }
        assert(outputs_fit(out));
        // Install the tables and name their files in the edit.
        let ghost files = output_files(out, level, first);
        let ghost edit_before = c.edit@;
        let ghost tables_before = self.tables@;
        let mut k: usize = 0;
        assert(c.edit@.added =~= edit_before.added + files.take(0));
        while k < built.len()
            invariant
                k <= built.len(),
                built@.len() == out.len(),
                first + out.len() <= u64::MAX,
                self.wf(),
                c.wf(),
                c.level == level,
                0 <= level < NUM_LEVELS - 1,
                c.edit.levels_in_range(),
                c.inputs == given.inputs,
                files == output_files(out, level, first),
                forall|j: int|
                    0 <= j < out.len() ==> (#[trigger] built@[j]).0@ == table_bytes(out[j])
                        && built@[j].1@ == table_meta(
                        out[j],
                        (first + j) as u64,
                        table_bytes(out[j]).len() as u64,
                    ),
                c.edit@ == (VersionEditView {
                    added: edit_before.added + files.take(k as int),
                    ..edit_before
                }),
                self.versions.next_file_number == first + k,
                self.versions.versions == before.versions.versions,
                self.versions.last_sequence == before.versions.last_sequence,
                self.versions.log_number == before.versions.log_number,
                self.versions.prev_log_number == before.versions.prev_log_number,
                self.versions.compact_pointer == before.versions.compact_pointer,
                self.versions.journal == before.versions.journal,
                self.vlog_writer == before.vlog_writer,
                self.log == before.log,
                self.mem == before.mem,
                self.imm == before.imm,
                self.log_file_number == before.log_file_number,
                forall|n: u64|
                    #![trigger self.tables@.contains_key(n)]
                    self.tables@.contains_key(n) <==> tables_before.contains_key(n) || first <= n
                        < first + k,
                forall|j: int|
                    0 <= j < k ==> (#[trigger] self.tables@[(first + j) as u64])@ == table_bytes(
                        out[j],
                    ),
                forall|n: u64|
                    tables_before.contains_key(n) && !(first <= n < first + k)
                        ==> #[trigger] self.tables@[n] == tables_before[n],
            decreases built.len() - k,
        {
            let number = self.versions.new_file_number();
            self.pending_outputs.push(number);
            let bytes = clone_bytes(&built[k].0);
            let file = built[k].1.clone();
            self.tables.insert(number, bytes);
            let _ = self.pending_outputs.pop();
            c.edit.add_file(level + 1, file);
            proof {
                assert(files[k as int] == ((level + 1) as i32, built@[k as int].1@));
                assert(files.take(k + 1) =~= files.take(k as int).push(files[k as int]));
                assert(c.edit@.added =~= edit_before.added + files.take(k + 1));
            }
            k = k + 1;
        }
        assert(files.take(k as int) =~= files);
        c.add_input_deletions();
        let mut obsolete: Vec<u64> = Vec::new();
        let mut which: usize = 0;
        while which < 2
            invariant
                which <= 2,
                c.wf(),
                c.inputs == given.inputs,
                forall|n: u64|
                    #![trigger obsolete@.contains(n)]
                    obsolete@.contains(n) <==> (which >= 1 && names_file(given.input_files(0), n))
                        || (which >= 2 && names_file(given.input_files(1), n)),
            decreases 2 - which,
        {
            let ghost done = obsolete@;
            let ghost these = c.input_files(which as int);
            let mut i: usize = 0;
            while i < c.inputs[which].len()
                invariant
                    which < 2,
                    c.wf(),
                    c.inputs == given.inputs,
                    these == c.input_files(which as int),
                    i <= these.len(),
                    forall|n: u64|
                        #![trigger obsolete@.contains(n)]
                        obsolete@.contains(n) <==> done.contains(n) || names_file(
                            these.take(i as int),
                            n,
                        ),
                decreases these.len() - i,
            {
                let ghost list = obsolete@;
                let num = c.inputs[which][i].num;
                obsolete.push(num);
                proof {
                    assert(these[i as int].num == num);
                    assert forall|n: u64|
                        #![trigger obsolete@.contains(n)]
                        obsolete@.contains(n) <==> done.contains(n) || names_file(
                            these.take(i + 1),
                            n,
                        ) by {
                        let now = obsolete@;
                        if list.contains(n) {
                            let j = choose|j: int| 0 <= j < list.len() && list[j] == n;
                            assert(now[j] == n);
                        }
                        if n == num {
                            assert(now[now.len() - 1] == n);
                            assert(these.take(i + 1)[i as int].num == n);
                        }
                        if now.contains(n) {
                            let j = choose|j: int| 0 <= j < now.len() && now[j] == n;
                            if j < list.len() {
                                assert(list[j] == n);
                            }
                        }
                        if names_file(these.take(i as int), n) {
                            let j = choose|j: int|
                                0 <= j < these.take(i as int).len() && (#[trigger] these.take(
                                    i as int,
                                )[j]).num == n;
                            assert(these.take(i + 1)[j].num == n);
                        }
                        if names_file(these.take(i + 1), n) {
                            let j = choose|j: int|
                                0 <= j < these.take(i + 1).len() && (#[trigger] these.take(i + 1)[j]).num
                                    == n;
                            if j < i {
                                assert(these.take(i as int)[j].num == n);
                            }
                        }
                    }
                }
                i = i + 1;
            }
            assert(these.take(i as int) =~= these);
            which = which + 1;
        }
        proof {
            assert(c.edit@.deleted =~= compaction_edit(given, out, first).deleted);
            assert(c.edit@ == compaction_edit(given, out, first));
        }
        let ghost installed = self.tables@;
        match self.versions.log_and_apply(c.edit) {
            Ok(()) => {},
            Err(e) => {
                return Err(e);
            },
        }
        let ghost applied = self.versions;
        let mut q: usize = 0;
        while q < obsolete.len()
            invariant
                q <= obsolete.len(),
                self.wf(),
                same_buffers(before, *self),
                self.versions == applied,
                forall|n: u64|
                    #![trigger self.tables@.contains_key(n)]
                    self.tables@.contains_key(n) <==> installed.contains_key(n)
                        && !obsolete@.take(q as int).contains(n),
                forall|n: u64|
                    self.tables@.contains_key(n) ==> #[trigger] self.tables@[n] == installed[n],
            decreases obsolete.len() - q,
        {
            let ghost gone = obsolete@.take(q as int);
            let _ = self.tables.remove(&obsolete[q]);
            proof {
                let now = obsolete@.take(q + 1);
                assert(now =~= gone.push(obsolete@[q as int]));
                assert forall|n: u64|
                    #![trigger self.tables@.contains_key(n)]
                    self.tables@.contains_key(n) <==> installed.contains_key(n) && !now.contains(
                        n,
                    ) by {
                    if gone.contains(n) {
                        let j = choose|j: int| 0 <= j < gone.len() && gone[j] == n;
                        assert(now[j] == n);
                    }
                    if n == obsolete@[q as int] {
                        assert(now[q as int] == n);
                    }
                    if now.contains(n) {
                        let j = choose|j: int| 0 <= j < now.len() && now[j] == n;
                        if j < q {
                            assert(gone[j] == n);
                        }
                    }
                }
            }
            q = q + 1;
        }
        assert(obsolete@.take(q as int) =~= obsolete@);
        proof {
            reveal(compacted);
            assert(outputs_fit(out));
            assert(forall|n: u64| obsolete@.contains(n) <==> is_input(given, n));
            assert(levels_disjoint(
                merged_levels(before.versions.current().levels(), compaction_edit(given, out, first)),
            ));
            assert(same_buffers(before, *self));
            assert(self.versions.next_file_number == first + out.len());
            assert(self.versions.versions@.len() == before.versions.versions@.len() + 1);
            assert(self.versions.current().levels() == merged_levels(
                before.versions.current().levels(),
                compaction_edit(given, out, first),
            ));
            assert forall|n: u64|
                #![trigger self.tables@.contains_key(n)]
                self.tables@.contains_key(n) <==> (before.tables@.contains_key(n) || first <= n
                    < first + out.len()) && !is_input(given, n) by {}
            assert forall|t: int|
                0 <= t < out.len() && !is_input(given, (first + t) as u64) implies (
            #[trigger] self.tables@[(first + t) as u64])@ == table_bytes(out[t]) by {}
            assert forall|n: u64|
                before.tables@.contains_key(n) && !(first <= n < first + out.len()) && !is_input(
                    given,
                    n,
                ) implies #[trigger] self.tables@[n] == before.tables@[n] by {}
        }
        Ok(())
    }
}

} // verus!
