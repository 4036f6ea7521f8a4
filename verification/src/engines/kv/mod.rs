//! The log-structured engine: an append-only log of records, an in-memory
//! index from each live key to the offset of its latest record, and
//! compaction of the log to the live records.
//!
//! The log is held as bytes in memory; a caller that wants it on disk writes
//! `log_bytes()` there and hands the bytes back to `open`.

pub mod codec;
pub mod compaction;
pub mod consistency;
pub mod index;
pub mod key;
pub mod lsm;
pub mod memtable;
pub mod options;
pub mod reader;
pub mod search;
pub mod table;
pub mod version;
pub mod writer;

use vstd::prelude::*;
use crate::engines::kv::codec::{
    decode_record, encode_line, is_record_line, lemma_is_record_line,
    lemma_parse_line_of_record_line, lemma_parse_line_sound, lemma_record_line_injective,
    lemma_record_line_newline, lemma_record_line_nonempty, parse_line, record_line, Command, RecordView,
};
use crate::engines::kv::index::{
    index_contains_key, index_contents, index_entries, index_get, index_insert, index_new,
    index_remove, lemma_entries_count, lists_entries, offset_of, OffsetIndex,
};
use crate::engines::kv::reader::{
    lemma_line_end_bounds, lemma_line_end_is, line_at, line_end, BufReaderWithPos,
};
use crate::engines::kv::writer::BufWriterWithPos;
use crate::error::KVSError;

verus! {

/// The length of the log above which it is due for compaction.
pub const COMPACT_THRESHOLD: u64 = 0x8000_0000_0000_0000;

// ---------------------------------------------------------------------------
// The model: a log is a sequence of records
// ---------------------------------------------------------------------------

/// Whether every record is one that the engine writes.
pub open spec fn valid_history(ops: Seq<RecordView>) -> bool {
    forall|i: int| 0 <= i < ops.len() ==> (#[trigger] ops[i]).cmd != Command::Seek
}

/// The bytes of a log that holds the records in order.
pub open spec fn log_text(ops: Seq<RecordView>) -> Seq<u8>
    decreases ops.len(),
{
    if ops.len() == 0 {
        Seq::empty()
    } else {
        log_text(ops.drop_last()) + record_line(ops.last())
    }
}

/// The live keys and their values after the records were applied in order.
pub open spec fn contents_of(ops: Seq<RecordView>) -> Map<Seq<char>, Seq<char>>
    decreases ops.len(),
{
    if ops.len() == 0 {
        Map::empty()
    } else {
        let before = contents_of(ops.drop_last());
        let r = ops.last();
        match r.cmd {
            Command::Put => before.insert(r.key, r.value),
            Command::Remove => before.remove(r.key),
            Command::Seek => before,
        }
    }
}

/// The live keys and the offset of the record that bound each.
pub open spec fn index_of(ops: Seq<RecordView>) -> Map<Seq<char>, u64>
    decreases ops.len(),
{
    if ops.len() == 0 {
        Map::empty()
    } else {
        let before = index_of(ops.drop_last());
        let r = ops.last();
        match r.cmd {
            Command::Put => before.insert(r.key, log_text(ops.drop_last()).len() as u64),
            Command::Remove => before.remove(r.key),
            Command::Seek => before,
        }
    }
}

/// The records that the bytes of a log hold, read line by line from the
/// start. `None` where a line is not the line of a `Set` or `Remove` record.
pub open spec fn parse_log(bytes: Seq<u8>) -> Option<Seq<RecordView>>
    decreases bytes.len(),
{
    if bytes.len() == 0 {
        Some(Seq::empty())
    } else {
        let end = line_end(bytes, 0);
        if 1 <= end <= bytes.len() {
            match parse_line(bytes.take(end)) {
                None => None,
                Some(r) => {
                    if r.cmd == Command::Seek {
                        None
                    } else {
                        match parse_log(bytes.skip(end)) {
                            None => None,
                            Some(rest) => Some(seq![r] + rest),
                        }
                    }
                },
            }
        } else {
            None
        }
    }
}

/// What a lookup in the live mapping gives.
pub open spec fn lookup(m: Map<Seq<char>, Seq<char>>, key: Seq<char>) -> Option<Seq<char>> {
    if m.contains_key(key) {
        Some(m[key])
    } else {
        None
    }
}

/// The live mapping after `set`.
pub open spec fn after_set(m: Map<Seq<char>, Seq<char>>, key: Seq<char>, value: Seq<char>) -> Map<
    Seq<char>,
    Seq<char>,
> {
    m.insert(key, value)
}

/// The live mapping after a `remove` that succeeded.
pub open spec fn after_remove(m: Map<Seq<char>, Seq<char>>, key: Seq<char>) -> Map<
    Seq<char>,
    Seq<char>,
> {
    m.remove(key)
}

/// `parse_log` with records already read put in front.
pub open spec fn with_read(done: Seq<RecordView>, rest: Option<Seq<RecordView>>) -> Option<
    Seq<RecordView>,
> {
    match rest {
        None => None,
        Some(more) => Some(done + more),
    }
}

// ---------------------------------------------------------------------------
// Facts about the model
// ---------------------------------------------------------------------------

/// A line inside a byte string ends where the same line ends in the tail
/// that starts at `pos`.
pub proof fn lemma_line_end_skip(bytes: Seq<u8>, pos: int, i: int)
    requires
        0 <= pos <= bytes.len(),
        0 <= i <= bytes.len() - pos,
    ensures
        line_end(bytes.skip(pos), i) + pos == line_end(bytes, pos + i),
    decreases bytes.len() - pos - i,
{
    let s = bytes.skip(pos);
    if i < s.len() {
        assert(s[i] == bytes[pos + i]);
        if s[i] != 0x0a {
            lemma_line_end_skip(bytes, pos, i + 1);
        }
    }
}

/// Where the bytes at `off` are the line of a record, that line is the line
/// that starts at `off`.
pub proof fn lemma_line_at_record(bytes: Seq<u8>, off: int, r: RecordView)
    requires
        0 <= off,
        off + record_line(r).len() <= bytes.len(),
        bytes.subrange(off, off + record_line(r).len()) == record_line(r),
    ensures
        line_end(bytes, off) == off + record_line(r).len(),
        line_at(bytes, off) == record_line(r),
{
    let line = record_line(r);
    let n = line.len() as int;
    lemma_record_line_nonempty(r);
    assert forall|i: int| off <= i < off + n implies (bytes[i] == 0x0a <==> i == off + n - 1) by {
        lemma_record_line_newline(r, i - off);
        assert(bytes.subrange(off, off + n)[i - off] == bytes[i]);
    }
    lemma_line_end_is(bytes, off, off + n);
}

/// The bytes of a log of two runs of records are the bytes of the first
/// followed by the bytes of the second.
pub proof fn lemma_log_text_concat(a: Seq<RecordView>, b: Seq<RecordView>)
    ensures
        log_text(a + b) == log_text(a) + log_text(b),
    decreases b.len(),
{
    if b.len() == 0 {
        assert(a + b =~= a);
        assert(log_text(a) + log_text(b) =~= log_text(a));
    } else {
        assert((a + b).drop_last() =~= a + b.drop_last());
        assert((a + b).last() == b.last());
        lemma_log_text_concat(a, b.drop_last());
        assert(log_text(a) + log_text(b.drop_last()) + record_line(b.last()) =~= log_text(a) + (
        log_text(b.drop_last()) + record_line(b.last())));
    }
}

/// The bytes of a log of one record are the record's line.
pub proof fn lemma_log_text_one(r: RecordView)
    ensures
        log_text(seq![r]) == record_line(r),
{
    let one = seq![r];
    assert(one.drop_last() =~= Seq::<RecordView>::empty());
    assert(one.last() == r);
    assert(log_text(one.drop_last()) =~= Seq::<u8>::empty());
    assert(log_text(one) =~= record_line(r));
}

/// Bytes that read as records are the log of those records, and the
/// records are ones that the engine writes.
pub proof fn lemma_parse_log_sound(bytes: Seq<u8>)
    requires
        parse_log(bytes) is Some,
    ensures
        bytes == log_text(parse_log(bytes).unwrap()),
        valid_history(parse_log(bytes).unwrap()),
    decreases bytes.len(),
{
    let ops = parse_log(bytes).unwrap();
    if bytes.len() == 0 {
        assert(bytes =~= log_text(ops));
    } else {
        let end = line_end(bytes, 0);
        let r = parse_line(bytes.take(end)).unwrap();
        let rest = parse_log(bytes.skip(end)).unwrap();
        lemma_parse_line_sound(bytes.take(end));
        lemma_parse_log_sound(bytes.skip(end));
        lemma_log_text_concat(seq![r], rest);
        lemma_log_text_one(r);
        assert(bytes =~= bytes.take(end) + bytes.skip(end));
        assert forall|i: int| 0 <= i < ops.len() implies (#[trigger] ops[i]).cmd
            != Command::Seek by {
            if i > 0 {
                assert(ops[i] == rest[i - 1]);
            }
        }
    }
}

/// Appending the line of a record to a log appends the record to what the
/// log reads as.
pub proof fn lemma_parse_log_append(bytes: Seq<u8>, r: RecordView)
    requires
        parse_log(bytes) is Some,
        r.cmd != Command::Seek,
    ensures
        parse_log(bytes + record_line(r)) == Some(parse_log(bytes).unwrap().push(r)),
    decreases bytes.len(),
{
    let line = record_line(r);
    let all = bytes + line;
    lemma_record_line_nonempty(r);
    if bytes.len() == 0 {
        assert(all =~= line);
        assert(all.subrange(0, line.len() as int) =~= line);
        lemma_line_at_record(all, 0, r);
        assert(all.take(line.len() as int) =~= line);
        lemma_parse_line_of_record_line(r);
        assert(all.skip(line.len() as int) =~= Seq::<u8>::empty());
        assert(parse_log(Seq::<u8>::empty()) == Some(Seq::<RecordView>::empty()));
        assert(seq![r] + Seq::<RecordView>::empty() =~= Seq::<RecordView>::empty().push(r));
        assert(parse_log(bytes).unwrap() =~= Seq::<RecordView>::empty());
        assert(parse_log(all) == Some(seq![r] + Seq::<RecordView>::empty()));
    } else {
        let end = line_end(bytes, 0);
        let first = parse_line(bytes.take(end)).unwrap();
        let rest = parse_log(bytes.skip(end)).unwrap();
        lemma_parse_line_sound(bytes.take(end));
        assert(bytes.take(end).len() == end);
        assert(all.subrange(0, end) =~= bytes.take(end));
        lemma_line_at_record(all, 0, first);
        assert(line_end(all, 0) == end);
        assert(all.take(end) =~= bytes.take(end));
        assert(all.skip(end) =~= bytes.skip(end) + line);
        lemma_parse_log_append(bytes.skip(end), r);
        assert(seq![first] + rest.push(r) =~= (seq![first] + rest).push(r));
        assert(parse_log(all) == Some(seq![first] + rest.push(r)));
    }
}

/// The log of records that the engine writes reads as those records.
pub proof fn lemma_parse_log_of_log_text(ops: Seq<RecordView>)
    requires
        valid_history(ops),
    ensures
        parse_log(log_text(ops)) == Some(ops),
    decreases ops.len(),
{
    if ops.len() > 0 {
        let front = ops.drop_last();
        assert forall|i: int| 0 <= i < front.len() implies (#[trigger] front[i]).cmd
            != Command::Seek by {
            assert(front[i] == ops[i]);
        }
        lemma_parse_log_of_log_text(front);
        lemma_parse_log_append(log_text(front), ops.last());
        assert(front.push(ops.last()) =~= ops);
    }
}

/// The index and the live mapping hold the same keys, and the index points
/// each key at the `Set` record that bound it to its live value.
pub proof fn lemma_index_points_at_records(ops: Seq<RecordView>, key: Seq<char>)
    requires
        log_text(ops).len() <= u64::MAX,
    ensures
        index_of(ops).contains_key(key) <==> contents_of(ops).contains_key(key),
        index_of(ops).contains_key(key) ==> {
            let off = index_of(ops)[key] as int;
            let r = RecordView { cmd: Command::Put, key, value: contents_of(ops)[key] };
            &&& off + record_line(r).len() <= log_text(ops).len()
            &&& log_text(ops).subrange(off, off + record_line(r).len()) == record_line(r)
            &&& line_at(log_text(ops), off) == record_line(r)
        },
    decreases ops.len(),
{
    if ops.len() > 0 {
        let front = ops.drop_last();
        let last = ops.last();
        let text = log_text(ops);
        let before = log_text(front);
        lemma_index_points_at_records(front, key);
        if index_of(ops).contains_key(key) {
            let r = RecordView { cmd: Command::Put, key, value: contents_of(ops)[key] };
            let n = record_line(r).len() as int;
            if last.cmd == Command::Put && last.key == key {
                let off = before.len() as int;
                assert(r == last);
                assert(text.subrange(off, off + n) =~= record_line(r));
            } else {
                let off = index_of(front)[key] as int;
                assert(text.subrange(off, off + n) =~= before.subrange(off, off + n));
            }
            lemma_line_at_record(text, index_of(ops)[key] as int, r);
        }
    }
}

/// For records that are all `Set` with keys that differ, the live mapping
/// binds the key of each record to its value, and nothing else.
pub proof fn lemma_contents_of_distinct_puts(ops: Seq<RecordView>)
    requires
        forall|i: int| 0 <= i < ops.len() ==> (#[trigger] ops[i]).cmd == Command::Put,
        forall|i: int, j: int|
            #![trigger ops[i], ops[j]]
            0 <= i < j < ops.len() ==> ops[i].key != ops[j].key,
    ensures
        forall|i: int|
            0 <= i < ops.len() ==> contents_of(ops).contains_key((#[trigger] ops[i]).key)
                && contents_of(ops)[ops[i].key] == ops[i].value,
        forall|k: Seq<char>| #[trigger]
            contents_of(ops).contains_key(k) ==> exists|i: int|
                0 <= i < ops.len() && (#[trigger] ops[i]).key == k,
        contents_of(ops).dom().finite(),
        contents_of(ops).dom().len() == ops.len(),
    decreases ops.len(),
{
    if ops.len() > 0 {
        let front = ops.drop_last();
        let last = ops.last();
        assert forall|i: int| 0 <= i < front.len() implies (#[trigger] front[i]).cmd
            == Command::Put by {
            assert(front[i] == ops[i]);
        }
        assert forall|i: int, j: int|
            #![trigger front[i], front[j]]
            0 <= i < j < front.len() implies front[i].key != front[j].key by {
            assert(front[i] == ops[i] && front[j] == ops[j]);
        }
        lemma_contents_of_distinct_puts(front);
        assert(last.cmd == Command::Put);
        assert(!contents_of(front).contains_key(last.key)) by {
            if contents_of(front).contains_key(last.key) {
                let i = choose|i: int| 0 <= i < front.len() && (#[trigger] front[i]).key == last.key;
                assert(front[i] == ops[i]);
                assert(ops[i].key != ops[ops.len() - 1].key);
            }
        }
        assert forall|i: int| 0 <= i < ops.len() implies contents_of(ops).contains_key(
            (#[trigger] ops[i]).key,
        ) && contents_of(ops)[ops[i].key] == ops[i].value by {
            if i < front.len() {
                assert(front[i] == ops[i]);
                assert(ops[i].key != ops[ops.len() - 1].key);
            }
        }
        assert forall|k: Seq<char>| #[trigger] contents_of(ops).contains_key(k) implies exists|
            i: int,
        |
            0 <= i < ops.len() && (#[trigger] ops[i]).key == k by {
            if k == last.key {
                assert(ops[ops.len() - 1].key == k);
            } else {
                let i = choose|i: int| 0 <= i < front.len() && (#[trigger] front[i]).key == k;
                assert(front[i] == ops[i]);
            }
        }
        assert(contents_of(ops).dom() =~= contents_of(front).dom().insert(last.key));
    } else {
        assert(contents_of(ops).dom() =~= Set::<Seq<char>>::empty());
    }
}

/// The place of the last record of a key among the records, if there is one.
pub open spec fn last_record_of(ops: Seq<RecordView>, key: Seq<char>) -> Option<int>
    decreases ops.len(),
{
    if ops.len() == 0 {
        None
    } else if ops.last().key == key {
        Some(ops.len() - 1)
    } else {
        last_record_of(ops.drop_last(), key)
    }
}

/// In whatever order the writes of several keys are interleaved, the last
/// write of a key decides: the key is live exactly when its last record is
/// a `Set`, and its value is then the value of that record. No write of
/// another key takes part.
pub proof fn lemma_last_write_wins(ops: Seq<RecordView>, key: Seq<char>)
    requires
        valid_history(ops),
    ensures
        match last_record_of(ops, key) {
            None => !contents_of(ops).contains_key(key),
            Some(i) => 0 <= i < ops.len() && ops[i].key == key && (forall|j: int|
                i < j < ops.len() ==> (#[trigger] ops[j]).key != key) && (contents_of(
                ops,
            ).contains_key(key) <==> ops[i].cmd == Command::Put) && (ops[i].cmd == Command::Put
                ==> contents_of(ops)[key] == ops[i].value),
        },
    decreases ops.len(),
{
    if ops.len() > 0 {
        let front = ops.drop_last();
        assert forall|i: int| 0 <= i < front.len() implies (#[trigger] front[i]).cmd
            != Command::Seek by {
            assert(front[i] == ops[i]);
        }
        lemma_last_write_wins(front, key);
        if ops.last().key != key {
            match last_record_of(front, key) {
                None => {},
                Some(i) => {
                    assert(front[i] == ops[i]);
                    assert forall|j: int| i < j < ops.len() implies (#[trigger] ops[j]).key
                        != key by {
                        if j < front.len() {
                            assert(front[j] == ops[j]);
                        }
                    }
                },
            }
        } else {
            assert(ops[ops.len() - 1].cmd != Command::Seek);
        }
    }
}

/// After `set(k, v)`, `get(k)` gives `v`.
pub proof fn lemma_get_after_set(m: Map<Seq<char>, Seq<char>>, key: Seq<char>, value: Seq<char>)
    ensures
        lookup(after_set(m, key, value), key) == Some(value),
{
}

/// After `remove(k)`, `get(k)` finds nothing.
pub proof fn lemma_get_after_remove(m: Map<Seq<char>, Seq<char>>, key: Seq<char>)
    ensures
        lookup(after_remove(m, key), key) is None,
{
}

/// `set` and `remove` of one key leave what `get` gives for every other key.
pub proof fn lemma_other_keys_untouched(
    m: Map<Seq<char>, Seq<char>>,
    key: Seq<char>,
    value: Seq<char>,
    other: Seq<char>,
)
    requires
        other != key,
    ensures
        lookup(after_set(m, key, value), other) == lookup(m, other),
        lookup(after_remove(m, key), other) == lookup(m, other),
{
}

// ---------------------------------------------------------------------------
// The store
// ---------------------------------------------------------------------------

/// The log-structured store.
pub struct KvStore {
    kv: OffsetIndex,
    log_writer: BufWriterWithPos,
}

impl View for KvStore {
    type V = Map<Seq<char>, Seq<char>>;

    /// The live keys and their values.
    closed spec fn view(&self) -> Map<Seq<char>, Seq<char>> {
        contents_of(self.history())
    }
}

impl KvStore {
    /// The bytes of the log.
    pub closed spec fn log(&self) -> Seq<u8> {
        self.log_writer@
    }

    /// The records of the log, in the order they were written.
    pub closed spec fn history(&self) -> Seq<RecordView> {
        parse_log(self.log_writer@).unwrap()
    }

    /// The in-memory index.
    pub closed spec fn index(&self) -> Map<Seq<char>, u64> {
        index_contents(self.kv)
    }

    /// The log is a sequence of records and the index is the one that
    /// replaying them gives.
    pub closed spec fn wf(&self) -> bool {
        &&& self.log_writer.wf()
        &&& parse_log(self.log_writer@) is Some
        &&& index_contents(self.kv) == index_of(self.history())
    }

    /// A well-formed store's log reads as its history, which determines the
    /// live mapping and the index.
    pub proof fn lemma_wf(&self)
        requires
            self.wf(),
        ensures
            parse_log(self.log()) == Some(self.history()),
            self.log() == log_text(self.history()),
            valid_history(self.history()),
            self@ == contents_of(self.history()),
            self.index() == index_of(self.history()),
            self.log().len() <= u64::MAX,
    {
        lemma_parse_log_sound(self.log_writer@);
        self.log_writer.lemma_position();
    }

    /// For every key in the index, the line of the log at the key's offset
    /// is the `Set` record of that key with its live value; and the index
    /// holds exactly the live keys.
    pub proof fn lemma_index_invariant(&self, key: Seq<char>)
        requires
            self.wf(),
        ensures
            self.index().contains_key(key) <==> self@.contains_key(key),
            self.index().contains_key(key) ==> line_at(self.log(), self.index()[key] as int)
                == record_line(RecordView { cmd: Command::Put, key, value: self@[key] }),
    {
        self.lemma_wf();
        lemma_index_points_at_records(self.history(), key);
    }

    /// Two well-formed stores over the same log bytes hold the same live
    /// mapping and the same index: closing a store and opening its log again
    /// loses nothing.
    pub proof fn lemma_reopen(&self, other: &KvStore)
        requires
            self.wf(),
            other.wf(),
            other.log() == self.log(),
        ensures
            other@ == self@,
            other.index() == self.index(),
            other.history() == self.history(),
    {
    }

    /// A store over an empty log.
    pub fn new() -> (store: KvStore)
        ensures
            store.wf(),
            store.log() == Seq::<u8>::empty(),
            store@ == Map::<Seq<char>, Seq<char>>::empty(),
    {
        let kv = index_new();
        let log_writer = BufWriterWithPos::over(Vec::new());
        KvStore { kv, log_writer }
    }

    /// Opens a store over the bytes of a log by replaying it from offset 0:
    /// a `Set` binds its key to the offset of the record, a `Remove` unbinds
    /// its key. Fails with `Corrupt` exactly when the bytes are not a
    /// sequence of `Set` and `Remove` record lines.
    pub fn open(log: Vec<u8>) -> (r: Result<KvStore, KVSError>)
        ensures
            match r {
                Ok(store) => store.wf() && store.log() == log@ && parse_log(log@) == Some(
                    store.history(),
                ),
                Err(e) => e == KVSError::Corrupt && parse_log(log@) is None,
            },
    {
        let mut kv = index_new();
        let end: u64 = log.len() as u64;
        let mut pos: u64 = 0;
        let ghost mut done: Seq<RecordView> = Seq::empty();
        let mut reader = BufReaderWithPos::over(log.as_slice());
        proof {
            assert(log@.skip(0) =~= log@);
            assert(log@.take(0) =~= Seq::<u8>::empty());
            match parse_log(log@) {
                None => {},
                Some(more) => {
                    assert(done + more =~= more);
                },
            }
        }
        while pos < end
            invariant
                pos <= end == log@.len(),
                reader.source() == log@,
                reader.position() == pos,
                parse_log(log@) == with_read(done, parse_log(log@.skip(pos as int))),
                valid_history(done),
                log_text(done) == log@.take(pos as int),
                index_contents(kv) == index_of(done),
            decreases end - pos,
        {
            let ghost tail_bytes = log@.skip(pos as int);
            let line = reader.read_line();
            proof {
                lemma_line_end_skip(log@, pos as int, 0);
                lemma_line_end_bounds(log@, pos as int);
                assert(tail_bytes.take(line_end(tail_bytes, 0)) =~= line@);
                lemma_is_record_line(line@);
            }
            let rec = match decode_record(line.as_slice()) {
                Ok(rec) => rec,
                Err(e) => {
                    return Err(KVSError::Corrupt);
                },
            };
            proof {
                lemma_parse_line_of_record_line(rec@);
                assert(tail_bytes.skip(line@.len() as int) =~= log@.skip(pos + line@.len()));
                assert(log@.take(pos + line@.len()) =~= log@.take(pos as int) + line@);
                match parse_log(log@.skip(pos + line@.len())) {
                    None => {},
                    Some(more) => {
                        assert(done + (seq![rec@] + more) =~= done.push(rec@) + more);
                    },
                }
                assert(done.push(rec@).drop_last() =~= done);
            }
            match rec.cmd {
                Command::Put => {
                    index_insert(&mut kv, rec.key, pos);
                },
                Command::Remove => {
                    index_remove(&mut kv, &rec.key);
                },
                Command::Seek => {
                    return Err(KVSError::Corrupt);
                },
            }
            proof {
                done = done.push(rec@);
            }
            pos = pos + line.len() as u64;
        }
        proof {
            assert(log@.skip(pos as int) =~= Seq::<u8>::empty());
            assert(done + Seq::<RecordView>::empty() =~= done);
        }
        let log_writer = BufWriterWithPos::over(log);
        Ok(KvStore { kv, log_writer })
    }

    /// Appends a `Set` record to the log and points the index at it. The
    /// in-memory log takes every byte, so the call succeeds.
    pub fn set(&mut self, key: String, value: String) -> (r: Result<(), KVSError>)
        requires
            old(self).wf(),
        ensures
            final(self).wf(),
            r is Ok,
            final(self)@ == after_set(old(self)@, key@, value@),
            final(self).history() == old(self).history().push(
                RecordView { cmd: Command::Put, key: key@, value: value@ },
            ),
            final(self).log() == old(self).log() + record_line(
                RecordView { cmd: Command::Put, key: key@, value: value@ },
            ),
            final(self).index() == old(self).index().insert(key@, old(self).log().len() as u64),
    {
        let ghost rec = RecordView { cmd: Command::Put, key: key@, value: value@ };
        let line = encode_line(Command::Put, key.as_str(), value.as_str());
        proof {
            self.lemma_wf();
            self.log_writer.lemma_position();
            lemma_parse_log_append(self.log_writer@, rec);
            assert(self.history().push(rec).drop_last() =~= self.history());
            assert(self.history().push(rec).last() == rec);
        }
        let pos = self.log_writer.pos();
        let n = match self.log_writer.write(line.as_slice()) {
            Ok(n) => n,
            Err(e) => {
                return Err(e);
            },
        };
        let _ = self.log_writer.flush();
        if n != line.len() {
            return Err(KVSError::Corrupt);
        }
        index_insert(&mut self.kv, key, pos);
        Ok(())
    }

    /// The value of a key: looks the key up in the index, reads the line at
    /// its offset and decodes it. A key that is not live has no value.
    pub fn get(&self, key: String) -> (r: Result<Option<String>, KVSError>)
        requires
            self.wf(),
        ensures
            match r {
                Ok(Some(value)) => lookup(self@, key@) == Some(value@),
                Ok(None) => lookup(self@, key@) is None,
                Err(_) => false,
            },
    {
        proof {
            self.lemma_index_invariant(key@);
        }
        match index_get(&self.kv, &key) {
            None => Ok(None),
            Some(pos) => {
                let mut reader = BufReaderWithPos::over(self.log_writer.as_slice());
                let _ = reader.seek(pos);
                let line = reader.read_line();
                let ghost expected = RecordView { cmd: Command::Put, key: key@, value: self@[key@] };
                proof {
                    assert(is_record_line(line@)) by {
                        assert(line@ == record_line(expected));
                    }
                }
                let rec = match decode_record(line.as_slice()) {
                    Ok(rec) => rec,
                    Err(e) => {
                        return Err(e);
                    },
                };
                proof {
                    lemma_record_line_injective(rec@, expected);
                }
                if rec.cmd == Command::Remove {
                    Ok(None)
                } else {
                    Ok(Some(rec.value))
                }
            },
        }
    }

    /// Unbinds a key. Fails with `NoSuchKey`, changing nothing, exactly when
    /// the key is not live; else appends a `Remove` record and takes the key
    /// out of the index.
    pub fn remove(&mut self, key: String) -> (r: Result<(), KVSError>)
        requires
            old(self).wf(),
        ensures
            final(self).wf(),
            old(self)@.contains_key(key@) ==> r is Ok && final(self)@ == after_remove(
                old(self)@,
                key@,
            ) && final(self).log() == old(self).log() + record_line(
                RecordView { cmd: Command::Remove, key: key@, value: Seq::<char>::empty() },
            ),
            !old(self)@.contains_key(key@) ==> r == Err::<(), KVSError>(KVSError::NoSuchKey)
                && final(self)@ == old(self)@ && final(self).log() == old(self).log()
                && final(self).index() == old(self).index(),
    {
        proof {
            self.lemma_index_invariant(key@);
        }
        if index_contains_key(&self.kv, &key) {
            let empty = String::new();
            let ghost rec = RecordView {
                cmd: Command::Remove,
                key: key@,
                value: Seq::<char>::empty(),
            };
            let line = encode_line(Command::Remove, key.as_str(), empty.as_str());
            proof {
                self.lemma_wf();
                lemma_parse_log_append(self.log_writer@, rec);
                assert(self.history().push(rec).drop_last() =~= self.history());
            }
            let n = match self.log_writer.write(line.as_slice()) {
                Ok(n) => n,
                Err(e) => {
                    return Err(e);
                },
            };
            let _ = self.log_writer.flush();
            if n != line.len() {
                return Err(KVSError::Corrupt);
            }
            index_remove(&mut self.kv, &key);
            Ok(())
        } else {
            Err(KVSError::NoSuchKey)
        }
    }

    /// Rewrites the log to the live records: for each key of the index, the
    /// record at the key's offset is copied to a new log and the key is
    /// pointed at the copy; then the new log and index take the place of the
    /// old. The live mapping and the key set of the index stay as they were,
    /// and the new log holds one `Set` record for each live key.
    pub fn compact(&mut self) -> (r: Result<(), KVSError>)
        requires
            old(self).wf(),
        ensures
            final(self).wf(),
            r is Ok,
            final(self)@ == old(self)@,
            final(self).index().dom() == old(self).index().dom(),
            old(self)@.dom().finite(),
            final(self).history().len() == old(self)@.dom().len(),
            forall|i: int|
                0 <= i < final(self).history().len() ==> (#[trigger] final(self).history()[i]).cmd
                    == Command::Put,
    {
        let entries = index_entries(&self.kv);
        let mut writer = BufWriterWithPos::over(Vec::new());
        let mut kv = index_new();
        let ghost mut ops: Seq<RecordView> = Seq::empty();
        let ghost live = self@;
        let mut i: usize = 0;
        while i < entries.len()
            invariant
                i <= entries.len(),
                self.wf(),
                live == self@,
                lists_entries(entries@, self.index()),
                writer.wf(),
                parse_log(writer@) == Some(ops),
                ops.len() == i,
                forall|j: int|
                    0 <= j < i ==> #[trigger] ops[j] == (RecordView {
                        cmd: Command::Put,
                        key: entries@[j].0@,
                        value: live[entries@[j].0@],
                    }),
                index_contents(kv) == index_of(ops),
            decreases entries.len() - i,
        {
            let key = entries[i].0.clone();
            let pos = entries[i].1;
            let ghost expected = RecordView { cmd: Command::Put, key: key@, value: live[key@] };
            proof {
                assert(self.index().contains_key(entries@[i as int].0@));
                self.lemma_index_invariant(key@);
            }
            let mut reader = BufReaderWithPos::over(self.log_writer.as_slice());
            let _ = reader.seek(pos);
            let line = reader.read_line();
            proof {
                assert(is_record_line(line@)) by {
                    assert(line@ == record_line(expected));
                }
            }
            let rec = match decode_record(line.as_slice()) {
                Ok(rec) => rec,
                Err(e) => {
                    return Err(e);
                },
            };
            proof {
                lemma_record_line_injective(rec@, expected);
                lemma_parse_log_append(writer@, expected);
                lemma_parse_log_sound(writer@);
                writer.lemma_position();
                assert(ops.push(expected).drop_last() =~= ops);
                assert(ops.push(expected).last() == expected);
            }
            if rec.cmd == Command::Put {
                let new_pos = writer.pos();
                let _ = writer.write(line.as_slice());
                let _ = writer.flush();
                index_insert(&mut kv, key, new_pos);
                proof {
                    ops = ops.push(expected);
                }
            }
            i = i + 1;
        }
        proof {
            assert forall|a: int, b: int|
                #![trigger ops[a], ops[b]]
                0 <= a < b < ops.len() implies ops[a].key != ops[b].key by {
                assert(entries@[a].0@ != entries@[b].0@);
            }
            lemma_contents_of_distinct_puts(ops);
            assert forall|k: Seq<char>| contents_of(ops).contains_key(k) == live.contains_key(
                k,
            ) by {
                self.lemma_index_invariant(k);
                if contents_of(ops).contains_key(k) {
                    let j = choose|j: int| 0 <= j < ops.len() && (#[trigger] ops[j]).key == k;
                    assert(self.index().contains_key(entries@[j].0@));
                }
                if live.contains_key(k) {
                    let j = choose|j: int|
                        0 <= j < entries@.len() && (#[trigger] entries@[j]).0@ == k;
                    assert(ops[j].key == k);
                }
            }
            assert forall|k: Seq<char>| contents_of(ops).contains_key(k) implies contents_of(
                ops,
            )[k] == live[k] by {
                let j = choose|j: int| 0 <= j < ops.len() && (#[trigger] ops[j]).key == k;
                assert(contents_of(ops)[ops[j].key] == ops[j].value);
            }
            assert(contents_of(ops) =~= live);
            assert forall|k: Seq<char>| index_of(ops).contains_key(k) == self.index().contains_key(
                k,
            ) by {
                self.lemma_index_invariant(k);
                lemma_parse_log_sound(writer@);
                writer.lemma_position();
                lemma_index_points_at_records(ops, k);
            }
            assert(index_of(ops).dom() =~= self.index().dom());
        }
        self.kv = kv;
        self.log_writer = writer;
        Ok(())
    }

    /// Closes the store and opens its log again. Nothing is lost: the store
    /// that comes back holds the same live mapping and the same index.
    pub fn reopen(self) -> (r: Result<KvStore, KVSError>)
        requires
            self.wf(),
        ensures
            r is Ok,
            r.unwrap().wf(),
            r.unwrap()@ == self@,
            r.unwrap().index() == self.index(),
            r.unwrap().log() == self.log(),
    {
        proof {
            self.lemma_wf();
        }
        let ghost before = self;
        let opened = KvStore::open(self.log_writer.into_inner());
        proof {
            if opened is Ok {
                before.lemma_reopen(&opened.unwrap());
            }
        }
        opened
    }

    /// The offset that the index holds for a key, if the key is live.
    pub fn position(&self, key: &String) -> (r: Option<u64>)
        ensures
            r == offset_of(self.index(), key@),
    {
        index_get(&self.kv, key)
    }

    /// How many keys are live.
    pub fn live_keys(&self) -> (n: usize)
        requires
            self.wf(),
        ensures
            self@.dom().finite(),
            n == self@.dom().len(),
    {
        let entries = index_entries(&self.kv);
        proof {
            let m = self.index();
            let keys = Set::new(|k: Seq<char>| m.contains_key(k));
            assert forall|k: Seq<char>| m.contains_key(k) == self@.contains_key(k) by {
                self.lemma_index_invariant(k);
            }
            assert(self@.dom() =~= m.dom());
            lemma_entries_count(entries@, m);
        }
        entries.len()
    }

    /// Whether the log has grown past the size at which it is due for
    /// compaction.
    pub fn needs_compaction(&self) -> (r: bool)
        requires
            self.wf(),
        ensures
            r == (self.log().len() > COMPACT_THRESHOLD),
    {
        self.log_len() > COMPACT_THRESHOLD
    }

    /// The bytes of the log, to be written where the log is kept.
    pub fn log_bytes(&self) -> (bytes: &[u8])
        ensures
            bytes@ == self.log(),
    {
        self.log_writer.as_slice()
    }

    /// The length of the log in bytes.
    pub fn log_len(&self) -> (n: u64)
        requires
            self.wf(),
        ensures
            n == self.log().len(),
    {
        proof {
            self.log_writer.lemma_position();
        }
        self.log_writer.pos()
    }
}

} // verus!
