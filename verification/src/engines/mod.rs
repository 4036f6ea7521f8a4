//! Storage engines and the interface that a server drives them through.

pub mod kv;

use vstd::prelude::*;
use crate::engines::kv::codec::{record_line, Command, RecordView};
use crate::engines::kv::consistency::tidy;
use crate::engines::kv::key::MAX_SEQUENCE_NUM;
use crate::engines::kv::lsm::{same_outcome, write_outcome};
use crate::engines::kv::options::COMPACT_MEMTABLE_THRESHOLD;
use crate::engines::kv::{after_remove, after_set};
use crate::error::KVSError;

verus! {

/// What every engine offers: `set`, `get` and `remove` on string keys and
/// values. The contract is that of a store that shows its own writes: what
/// `get` gives is what `lookup` says, a `set` that succeeds makes `lookup`
/// give the value, and a `remove` that succeeds makes it give nothing.
pub trait KvsEngine {
    /// Whether the engine is in a state that its operations keep.
    spec fn ready(&self) -> bool;

    /// What a read of `key` gives.
    spec fn lookup(&self, key: Seq<char>) -> Result<Option<Seq<char>>, KVSError>;

    fn set(&mut self, key: String, value: String) -> (r: Result<(), KVSError>)
        requires
            old(self).ready(),
        ensures
            final(self).ready(),
            r is Ok ==> final(self).lookup(key@) == Ok::<Option<Seq<char>>, KVSError>(Some(value@)),
    ;

    fn get(&self, key: String) -> (r: Result<Option<String>, KVSError>)
        requires
            self.ready(),
        ensures
            same_outcome(r, self.lookup(key@)),
    ;

    fn remove(&mut self, key: String) -> (r: Result<(), KVSError>)
        requires
            old(self).ready(),
        ensures
            final(self).ready(),
            r is Ok ==> final(self).lookup(key@) == Ok::<Option<Seq<char>>, KVSError>(None),
    ;
}

impl KvsEngine for crate::engines::kv::KvStore {
    open spec fn ready(&self) -> bool {
        self.wf()
    }

    open spec fn lookup(&self, key: Seq<char>) -> Result<Option<Seq<char>>, KVSError> {
        Ok(crate::engines::kv::lookup(self@, key))
    }

    /// Appends a `Set` record to the log and points the index at it; the
    /// call always succeeds.
    fn set(&mut self, key: String, value: String) -> (r: Result<(), KVSError>)
        ensures
            r is Ok,
            final(self)@ == after_set(old(self)@, key@, value@),
            final(self).log() == old(self).log() + record_line(
                RecordView { cmd: Command::Put, key: key@, value: value@ },
            ),
            final(self).index() == old(self).index().insert(key@, old(self).log().len() as u64),
    {
        crate::engines::kv::KvStore::set(self, key, value)
    }

    fn get(&self, key: String) -> (r: Result<Option<String>, KVSError>) {
        crate::engines::kv::KvStore::get(self, key)
    }

    /// Fails with `NoSuchKey`, changing nothing, exactly when the key is
    /// not live; else appends a `Remove` record and unbinds the key.
    fn remove(&mut self, key: String) -> (r: Result<(), KVSError>)
        ensures
            old(self)@.contains_key(key@) ==> r is Ok && final(self)@ == after_remove(
                old(self)@,
                key@,
            ) && final(self).log() == old(self).log() + record_line(
                RecordView { cmd: Command::Remove, key: key@, value: Seq::<char>::empty() },
            ),
            !old(self)@.contains_key(key@) ==> r == Err::<(), KVSError>(KVSError::NoSuchKey)
                && final(self)@ == old(self)@ && final(self).log() == old(self).log()
                && final(self).index() == old(self).index(),
    {
        crate::engines::kv::KvStore::remove(self, key)
    }
}

impl KvsEngine for crate::engines::kv::lsm::KvStore {
    open spec fn ready(&self) -> bool {
        self.wf()
    }

    open spec fn lookup(&self, key: Seq<char>) -> Result<Option<Seq<char>>, KVSError> {
        self.spec_get(key)
    }

    /// Makes room, then enters the write. Succeeds where the memtable has
    /// room, a sequence number is left and the place of the value fits a
    /// signed offset.
    fn set(&mut self, key: String, value: String) -> (r: Result<(), KVSError>)
        ensures
            write_outcome(*old(self), *final(self), r, Command::Put, key@, value@),
            tidy(*old(self)) ==> tidy(*final(self)),
            r is Ok ==> final(self).versions.last_sequence == old(self).versions.last_sequence + 1,
            old(self).mem.spec_size() <= COMPACT_MEMTABLE_THRESHOLD
                && old(self).versions.last_sequence < MAX_SEQUENCE_NUM
                && old(self).vlog_writer@.len() <= i64::MAX ==> r is Ok,
    {
        crate::engines::kv::lsm::KvStore::set(self, key, value)
    }

    fn get(&self, key: String) -> (r: Result<Option<String>, KVSError>) {
        crate::engines::kv::lsm::KvStore::get(self, key)
    }

    /// Makes room, then enters a tombstone for the key, whether or not the
    /// key is bound. Succeeds where the memtable has room, a sequence number
    /// is left and the end of the value log fits a signed offset.
    fn remove(&mut self, key: String) -> (r: Result<(), KVSError>)
        ensures
            write_outcome(*old(self), *final(self), r, Command::Remove, key@, Seq::<char>::empty()),
            tidy(*old(self)) ==> tidy(*final(self)),
            r is Ok ==> final(self).versions.last_sequence == old(self).versions.last_sequence + 1,
            old(self).mem.spec_size() <= COMPACT_MEMTABLE_THRESHOLD
                && old(self).versions.last_sequence < MAX_SEQUENCE_NUM
                && old(self).vlog_writer@.len() <= i64::MAX ==> r is Ok,
    {
        crate::engines::kv::lsm::KvStore::remove(self, key)
    }
}

} // verus!
