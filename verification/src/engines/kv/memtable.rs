//! The memtable: an ordered, in-memory map from internal key to the place of
//! the value in the value log.
//!
//! The map is `skiplist::SkipMap`, keyed by a pair of the user key and a
//! rank, the sequence number counted down from `u64::MAX`: pairs are ordered
//! by user key, then by rank, so the newest entry of a user key comes first.
//! Verus does not look inside the skip map: what it holds is named by
//! `table_contents`, and each method the memtable calls is reached through a
//! function whose contract is taken on trust from the skip map's source.

use vstd::prelude::*;
use skiplist::SkipMap;
use std::ops::Bound;
use crate::engines::kv::codec::Command;
use crate::engines::kv::key::{
    key_lt, lemma_user_key_lt_total, user_key_lt, InternalKey,
};
use crate::error::KVSError;

verus! {

/// `skiplist::SkipMap`, of which nothing but its name is known here.
#[verifier::external_type_specification]
#[verifier::external_body]
#[verifier::reject_recursive_types(K)]
#[verifier::reject_recursive_types(V)]
pub struct ExSkipMap<K, V>(SkipMap<K, V>);

/// The skip map of a memtable: user key and rank to value place and length.
pub type Table = SkipMap<(String, u64), (i64, usize)>;

/// A key of the skip map as a mathematical value.
pub type Slot = (Seq<char>, u64);

/// An entry handed out of the skip map: user key, rank, value place, length.
pub type Item = (String, u64, i64, usize);

/// The entries that a skip map holds.
pub uninterp spec fn table_contents(t: Table) -> Map<Slot, (i64, usize)>;

/// The map without any entry.
pub open spec fn no_slots() -> Map<Slot, (i64, usize)> {
    Map::empty()
}

/// The order of the skip map's keys: by user key, then by rank.
pub open spec fn slot_lt(a: Slot, b: Slot) -> bool {
    user_key_lt(a.0, b.0) || (a.0 == b.0 && a.1 < b.1)
}

/// `a` is `b` or comes before it.
pub open spec fn slot_le(a: Slot, b: Slot) -> bool {
    a == b || slot_lt(a, b)
}

/// The key of an entry handed out.
pub open spec fn slot_of(item: Item) -> Slot {
    (item.0@, item.1)
}

/// Whether `found` is the first entry of `m` at or after `bound`, or
/// nothing where `m` holds no entry there.
pub open spec fn is_first_at_or_after(
    m: Map<Slot, (i64, usize)>,
    bound: Slot,
    found: Option<Item>,
) -> bool {
    match found {
        None => forall|k: Slot| #[trigger] m.contains_key(k) ==> !slot_le(bound, k),
        Some(item) => {
            &&& m.contains_key(slot_of(item))
            &&& m[slot_of(item)] == (item.2, item.3)
            &&& slot_le(bound, slot_of(item))
            &&& forall|k: Slot| #[trigger]
                m.contains_key(k) && slot_le(bound, k) ==> slot_le(slot_of(item), k)
        },
    }
}

/// Whether a list holds each entry of `m` once, in ascending order of key.
pub open spec fn lists_in_order(items: Seq<Item>, m: Map<Slot, (i64, usize)>) -> bool {
    &&& forall|i: int, j: int|
        #![trigger items[i], items[j]]
        0 <= i < j < items.len() ==> slot_lt(slot_of(items[i]), slot_of(items[j]))
    &&& forall|i: int|
        0 <= i < items.len() ==> m.contains_key(slot_of(#[trigger] items[i])) && m[slot_of(
            items[i],
        )] == (items[i].2, items[i].3)
    &&& forall|k: Slot| #[trigger]
        m.contains_key(k) ==> exists|i: int|
            0 <= i < items.len() && slot_of(#[trigger] items[i]) == k
}

/// `SkipMap::new`: a fresh map holds no entry.
#[verifier::external_body]
pub(crate) fn table_new() -> (t: Table)
    ensures
        table_contents(t) == no_slots(),
{
    SkipMap::new()
}

/// `SkipMap::insert`: binds the key to the value, in place of any earlier
/// value of the key.
#[verifier::external_body]
pub(crate) fn table_insert(t: &mut Table, user_key: String, rank: u64, pos: i64, len: usize)
    ensures
        table_contents(*final(t)) == table_contents(*old(t)).insert((user_key@, rank), (pos, len)),
{
    t.insert((user_key, rank), (pos, len));
}

/// `SkipMap::lower_bound` with an included bound: the entry with the least
/// key that is not below the bound.
#[verifier::external_body]
pub(crate) fn table_lower_bound(t: &Table, user_key: &String, rank: u64) -> (found: Option<Item>)
    ensures
        is_first_at_or_after(table_contents(*t), (user_key@, rank), found),
{
    let bound = (user_key.clone(), rank);
    t.lower_bound(Bound::Included(&bound)).map(|(k, v)| (k.0.clone(), k.1, v.0, v.1))
}

/// `SkipMap::iter`: every entry once, in ascending order of key.
#[verifier::external_body]
pub(crate) fn table_items(t: &Table) -> (items: Vec<Item>)
    ensures
        lists_in_order(items@, table_contents(*t)),
{
    t.iter().map(|(k, v)| (k.0.clone(), k.1, v.0, v.1)).collect()
}

// ---------------------------------------------------------------------------
// The memtable
// ---------------------------------------------------------------------------

/// The rank of a sequence number: newer entries have lower ranks.
pub open spec fn rank_of(sequence_num: u64) -> u64 {
    (u64::MAX - sequence_num) as u64
}

/// The place that stands for a removed key.
pub const TOMBSTONE: i64 = -1;

/// How much an entry adds to the size of a memtable: the bytes of its user
/// key and three words.
pub open spec fn entry_cost(user_key: Seq<char>) -> nat {
    vstd::utf8::encode_utf8(user_key).len() + 24
}

/// The entries of a memtable: user key and sequence number to value place
/// and length.
pub type Entries = Map<(Seq<char>, u64), (i64, usize)>;

/// Whether `seq` is the newest sequence number of `user_key` in `m` that is
/// not above `bound`.
pub open spec fn is_newest_visible(m: Entries, user_key: Seq<char>, bound: u64, seq: u64) -> bool {
    &&& seq <= bound
    &&& m.contains_key((user_key, seq))
    &&& forall|s: u64| s <= bound && #[trigger] m.contains_key((user_key, s)) ==> s <= seq
}

/// What a lookup sees: the entry of the user key with the newest sequence
/// number that is not above the bound.
pub open spec fn visible(m: Entries, user_key: Seq<char>, bound: u64, found: Option<
    (i64, usize),
>) -> bool {
    match found {
        None => forall|s: u64| s <= bound ==> !#[trigger] m.contains_key((user_key, s)),
        Some(v) => exists|s: u64| #[trigger]
            is_newest_visible(m, user_key, bound, s) && m[(user_key, s)] == v,
    }
}

/// The entry that a lookup sees, as a function of the entries.
pub open spec fn newest_visible(m: Entries, user_key: Seq<char>, bound: u64) -> Option<(i64, usize)> {
    if exists|s: u64| is_newest_visible(m, user_key, bound, s) {
        Some(m[(user_key, choose|s: u64| is_newest_visible(m, user_key, bound, s))])
    } else {
        None
    }
}

/// What a lookup sees is determined by the entries.
pub proof fn lemma_visible_is_newest(m: Entries, user_key: Seq<char>, bound: u64, found: Option<
    (i64, usize),
>)
    requires
        visible(m, user_key, bound, found),
    ensures
        found == newest_visible(m, user_key, bound),
{
    match found {
        None => {
            if exists|s: u64| is_newest_visible(m, user_key, bound, s) {
                let s = choose|s: u64| is_newest_visible(m, user_key, bound, s);
                assert(m.contains_key((user_key, s)));
            }
        },
        Some(v) => {
            let s = choose|s: u64| #[trigger]
                is_newest_visible(m, user_key, bound, s) && m[(user_key, s)] == v;
            let t = choose|t: u64| is_newest_visible(m, user_key, bound, t);
            assert(m.contains_key((user_key, s)) && m.contains_key((user_key, t)));
            assert(s <= t && t <= s);
        },
    }
}

/// An entry with the bound as its sequence number is what a lookup sees.
pub proof fn lemma_newest_at_bound(m: Entries, user_key: Seq<char>, bound: u64)
    requires
        m.contains_key((user_key, bound)),
    ensures
        newest_visible(m, user_key, bound) == Some(m[(user_key, bound)]),
{
    assert(is_newest_visible(m, user_key, bound, bound));
    let t = choose|t: u64| is_newest_visible(m, user_key, bound, t);
    assert(bound <= t);
}

/// The command that an entry stands for.
pub open spec fn command_of(pos: i64) -> Command {
    if pos == TOMBSTONE {
        Command::Remove
    } else {
        Command::Put
    }
}

/// Whether a list holds each entry of `m` once, in ascending order of
/// internal key, each with its place and length.
pub open spec fn lists_entries_in_order(items: Seq<(InternalKey, i64, usize)>, m: Entries) -> bool {
    &&& forall|i: int, j: int|
        #![trigger items[i], items[j]]
        0 <= i < j < items.len() ==> key_lt(items[i].0@, items[j].0@)
    &&& forall|i: int|
        0 <= i < items.len() ==> {
            let item = #[trigger] items[i];
            &&& m.contains_key((item.0@.user_key, item.0@.sequence_num))
            &&& m[(item.0@.user_key, item.0@.sequence_num)] == (item.1, item.2)
            &&& item.0@.command == command_of(item.1)
        }
    &&& forall|k: (Seq<char>, u64)| #[trigger]
        m.contains_key(k) ==> exists|i: int|
            0 <= i < items.len() && (#[trigger] items[i]).0@.user_key == k.0
                && items[i].0@.sequence_num == k.1
}

/// The write buffer of the leveled engine.
pub struct MemTable {
    kv: Table,
    bytes: u64,
}

impl View for MemTable {
    type V = Entries;

    /// The entries by user key and sequence number.
    closed spec fn view(&self) -> Entries {
        Map::new(
            |k: (Seq<char>, u64)| table_contents(self.kv).contains_key((k.0, rank_of(k.1))),
            |k: (Seq<char>, u64)| table_contents(self.kv)[(k.0, rank_of(k.1))],
        )
    }
}

impl MemTable {
    /// The size that the write-buffer threshold is held against.
    pub closed spec fn spec_size(&self) -> nat {
        self.bytes as nat
    }

    /// An empty memtable.
    pub fn new() -> (r: Result<MemTable, KVSError>)
        ensures
            r is Ok,
            r.unwrap()@ == Map::<(Seq<char>, u64), (i64, usize)>::empty(),
            r.unwrap().spec_size() == 0,
    {
        Ok(MemTable::empty())
    }

    /// An empty memtable.
    pub fn empty() -> (table: MemTable)
        ensures
            table@ == Map::<(Seq<char>, u64), (i64, usize)>::empty(),
            table.spec_size() == 0,
    {
        let kv = table_new();
        let table = MemTable { kv, bytes: 0 };
        assert(table@ =~= Map::<(Seq<char>, u64), (i64, usize)>::empty());
        table
    }

    /// Binds an internal key to the place and length of its value; a
    /// `Remove` key is bound to the tombstone place instead. Fails with
    /// `Corrupt`, changing nothing, exactly when the place does not fit the
    /// signed offset that the table stores.
    pub fn insert(&mut self, k: InternalKey, pos: u64, size: usize) -> (r: Result<(), KVSError>)
        ensures
            pos <= i64::MAX ==> r is Ok && final(self)@ == old(self)@.insert(
                (k@.user_key, k@.sequence_num),
                (
                    if k@.command == Command::Remove {
                        TOMBSTONE
                    } else {
                        pos as i64
                    },
                    size,
                ),
            ) && final(self).spec_size() == if old(self).spec_size() + entry_cost(k@.user_key)
                > u64::MAX {
                u64::MAX as nat
            } else {
                old(self).spec_size() + entry_cost(k@.user_key)
            },
            pos > i64::MAX ==> r == Err::<(), KVSError>(KVSError::Corrupt) && final(self)@ == old(
                self,
            )@ && final(self).spec_size() == old(self).spec_size(),
    {
        if pos > i64::MAX as u64 {
            return Err(KVSError::Corrupt);
        }
        let place: i64 = match k.command {
            Command::Remove => TOMBSTONE,
            _ => pos as i64,
        };
        let rank: u64 = u64::MAX - k.sequence_num;
        let key_len: usize = k.user_key.as_str().as_bytes().len();
        let cost: u64 = if key_len as u64 > u64::MAX - 24 {
            u64::MAX
        } else {
            key_len as u64 + 24
        };
        let ghost before = self@;
        let ghost slot = (k@.user_key, k@.sequence_num);
        table_insert(&mut self.kv, k.user_key, rank, place, size);
        self.bytes = if self.bytes > u64::MAX - cost {
            u64::MAX
        } else {
            self.bytes + cost
        };
        proof {
            assert forall|j: (Seq<char>, u64)| (j.0, rank_of(j.1)) == (slot.0, rank_of(slot.1))
                <==> j == slot by {}
            assert(self@ =~= before.insert(slot, (place, size)));
        }
        Ok(())
    }

    /// The entry that a lookup with `k` sees: of the entries with the user
    /// key of `k`, the one with the newest sequence number that is not
    /// above that of `k`.
    pub fn get(&self, k: &InternalKey) -> (r: Result<Option<(i64, usize)>, KVSError>)
        ensures
            r is Ok,
            visible(self@, k@.user_key, k@.sequence_num, r.unwrap()),
    {
        let rank: u64 = u64::MAX - k.sequence_num;
        let found = table_lower_bound(&self.kv, &k.user_key, rank);
        let ghost m = table_contents(self.kv);
        let ghost bound = (k@.user_key, rank);
        match found {
            None => {
                proof {
                    assert forall|s: u64| s <= k@.sequence_num implies !#[trigger] self@.contains_key(
                        (k@.user_key, s),
                    ) by {
                        if self@.contains_key((k@.user_key, s)) {
                            assert(m.contains_key((k@.user_key, rank_of(s))));
                            assert(slot_le(bound, (k@.user_key, rank_of(s))));
                        }
                    }
                }
                Ok(None)
            },
            Some(item) => {
                if item.0 == k.user_key {
                    proof {
                        let s: u64 = (u64::MAX - item.1) as u64;
                        lemma_user_key_lt_total(k@.user_key, k@.user_key);
                        assert(rank_of(s) == item.1);
                        assert(slot_of(item) == (k@.user_key, rank_of(s)));
                        assert forall|t: u64|
                            t <= k@.sequence_num && #[trigger] self@.contains_key(
                                (k@.user_key, t),
                            ) implies t <= s by {
                            assert(m.contains_key((k@.user_key, rank_of(t))));
                            assert(slot_le(bound, (k@.user_key, rank_of(t))));
                            assert(slot_le(slot_of(item), (k@.user_key, rank_of(t))));
                        }
                        assert(is_newest_visible(self@, k@.user_key, k@.sequence_num, s));
                    }
                    Ok(Some((item.2, item.3)))
                } else {
                    proof {
                        assert forall|s: u64| s <= k@.sequence_num implies !#[trigger] self@.contains_key(
                            (k@.user_key, s),
                        ) by {
                            if self@.contains_key((k@.user_key, s)) {
                                let j = (k@.user_key, rank_of(s));
                                assert(m.contains_key(j));
                                assert(slot_le(bound, j));
                                assert(slot_le(slot_of(item), j));
                                lemma_user_key_lt_total(item.0@, k@.user_key);
                            }
                        }
                    }
                    Ok(None)
                }
            },
        }
    }

    /// The size that the write-buffer threshold is held against: the sum,
    /// over every insertion, of the bytes of the user key and three words,
    /// held at `u64::MAX` where it would pass it.
    pub fn size(&self) -> (n: u64)
        ensures
            n == self.spec_size(),
    {
        self.bytes
    }

    /// Every entry once, in ascending order of internal key: by user key,
    /// and for one user key the newest first.
    pub fn iter(&self) -> (items: Vec<(InternalKey, i64, usize)>)
        ensures
            lists_entries_in_order(items@, self@),
    {
        let raw = table_items(&self.kv);
        let ghost m = table_contents(self.kv);
        let mut items: Vec<(InternalKey, i64, usize)> = Vec::new();
        let mut i: usize = 0;
        while i < raw.len()
            invariant
                i <= raw.len(),
                m == table_contents(self.kv),
                lists_in_order(raw@, m),
                items@.len() == i,
                forall|j: int|
                    0 <= j < i ==> {
                        let item = #[trigger] items@[j];
                        &&& item.0@.user_key == raw@[j].0@
                        &&& rank_of(item.0@.sequence_num) == raw@[j].1
                        &&& item.1 == raw@[j].2
                        &&& item.2 == raw@[j].3
                        &&& item.0@.command == command_of(item.1)
                    },
            decreases raw.len() - i,
        {
            let user_key = raw[i].0.clone();
            let sequence_num: u64 = u64::MAX - raw[i].1;
            let place: i64 = raw[i].2;
            let len: usize = raw[i].3;
            let command = if place == TOMBSTONE {
                Command::Remove
            } else {
                Command::Put
            };
            items.push((InternalKey { sequence_num, user_key, command }, place, len));
            i = i + 1;
        }
        proof {
            assert forall|a: int, b: int|
                #![trigger items@[a], items@[b]]
                0 <= a < b < items@.len() implies key_lt(items@[a].0@, items@[b].0@) by {
                assert(slot_lt(slot_of(raw@[a]), slot_of(raw@[b])));
            }
            assert forall|j: int| 0 <= j < items@.len() implies {
                let item = #[trigger] items@[j];
                &&& self@.contains_key((item.0@.user_key, item.0@.sequence_num))
                &&& self@[(item.0@.user_key, item.0@.sequence_num)] == (item.1, item.2)
                &&& item.0@.command == command_of(item.1)
            } by {
                assert(m.contains_key(slot_of(raw@[j])));
            }
            assert forall|k: (Seq<char>, u64)| #[trigger] self@.contains_key(k) implies exists|
                j: int,
            |
                0 <= j < items@.len() && (#[trigger] items@[j]).0@.user_key == k.0
                    && items@[j].0@.sequence_num == k.1 by {
                assert(m.contains_key((k.0, rank_of(k.1))));
                let j = choose|j: int|
                    0 <= j < raw@.len() && slot_of(#[trigger] raw@[j]) == (k.0, rank_of(k.1));
                assert(items@[j].0@.user_key == k.0);
            }
        }
        items
    }
}

} // verus!
