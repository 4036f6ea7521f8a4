//! The in-memory index of the log-structured engine: a concurrent hash map
//! from user key to the offset of the key's latest record.
//!
//! The map is `dashmap::DashMap`. Verus does not look inside it: what it
//! holds is named by `index_contents`, and each method the engine calls is
//! reached through a function whose contract is taken on trust from the
//! map's documentation and source. The functions that change the map take it
//! by `&mut`, so that a change is visible in contracts.

use vstd::prelude::*;
use dashmap::DashMap;
use std::collections::hash_map::RandomState;

verus! {

/// `dashmap::DashMap`, of which nothing but its name is known here.
#[verifier::external_type_specification]
#[verifier::external_body]
#[verifier::reject_recursive_types(K)]
#[verifier::reject_recursive_types(V)]
#[verifier::reject_recursive_types(S)]
pub struct ExDashMap<K, V, S>(DashMap<K, V, S>);

/// The index: user key to log offset.
pub type OffsetIndex = DashMap<String, u64, RandomState>;

/// The key-to-offset mapping that an index holds.
pub uninterp spec fn index_contents(m: OffsetIndex) -> Map<Seq<char>, u64>;

/// The mapping without any entry.
pub open spec fn no_entries() -> Map<Seq<char>, u64> {
    Map::empty()
}

/// What a lookup in a mapping gives.
pub open spec fn offset_of(m: Map<Seq<char>, u64>, key: Seq<char>) -> Option<u64> {
    if m.contains_key(key) {
        Some(m[key])
    } else {
        None
    }
}

/// Whether a list holds each entry of a mapping once, and nothing else.
pub open spec fn lists_entries(entries: Seq<(String, u64)>, m: Map<Seq<char>, u64>) -> bool {
    &&& forall|i: int, j: int|
        #![trigger entries[i], entries[j]]
        0 <= i < j < entries.len() ==> entries[i].0@ != entries[j].0@
    &&& forall|i: int|
        0 <= i < entries.len() ==> m.contains_key((#[trigger] entries[i]).0@) && m[entries[i].0@]
            == entries[i].1
    &&& forall|k: Seq<char>| #[trigger]
        m.contains_key(k) ==> exists|i: int|
            0 <= i < entries.len() && (#[trigger] entries[i]).0@ == k
}

/// A mapping holds as many keys as a list of its entries is long.
pub proof fn lemma_entries_count(entries: Seq<(String, u64)>, m: Map<Seq<char>, u64>)
    requires
        lists_entries(entries, m),
    ensures
        m.dom().finite(),
        m.dom().len() == entries.len(),
    decreases entries.len(),
{
    if entries.len() == 0 {
        assert(m.dom() =~= Set::<Seq<char>>::empty());
    } else {
        let last = entries.last();
        let front = entries.drop_last();
        let rest = m.remove(last.0@);
        assert forall|i: int, j: int|
            #![trigger front[i], front[j]]
            0 <= i < j < front.len() implies front[i].0@ != front[j].0@ by {
            assert(front[i] == entries[i] && front[j] == entries[j]);
        }
        assert forall|i: int| 0 <= i < front.len() implies rest.contains_key(
            (#[trigger] front[i]).0@,
        ) && rest[front[i].0@] == front[i].1 by {
            assert(front[i] == entries[i]);
            assert(entries[i].0@ != entries[entries.len() - 1].0@);
        }
        assert forall|k: Seq<char>| #[trigger] rest.contains_key(k) implies exists|i: int|
            0 <= i < front.len() && (#[trigger] front[i]).0@ == k by {
            assert(m.contains_key(k));
            let i = choose|i: int| 0 <= i < entries.len() && (#[trigger] entries[i]).0@ == k;
            assert(front[i] == entries[i]);
        }
        lemma_entries_count(front, rest);
        assert(m.contains_key(entries[entries.len() - 1].0@));
        assert(m.dom() =~= rest.dom().insert(last.0@));
    }
}

/// `DashMap::new`: a fresh map holds no entry.
#[verifier::external_body]
pub(crate) fn index_new() -> (index: OffsetIndex)
    ensures
        index_contents(index) == no_entries(),
{
    DashMap::new()
}

/// `DashMap::insert`: binds the key to the value, in place of any earlier
/// binding of the key.
#[verifier::external_body]
pub(crate) fn index_insert(m: &mut OffsetIndex, key: String, value: u64)
    ensures
        index_contents(*final(m)) == index_contents(*old(m)).insert(key@, value),
{
    m.insert(key, value);
}

/// `DashMap::remove`: unbinds the key; a key that is not bound changes
/// nothing.
#[verifier::external_body]
pub(crate) fn index_remove(m: &mut OffsetIndex, key: &String)
    ensures
        index_contents(*final(m)) == index_contents(*old(m)).remove(key@),
{
    m.remove(key);
}

/// `DashMap::get`: the value bound to the key, if any.
#[verifier::external_body]
pub(crate) fn index_get(m: &OffsetIndex, key: &String) -> (r: Option<u64>)
    ensures
        r == offset_of(index_contents(*m), key@),
{
    m.get(key).map(|entry| *entry.value())
}

/// `DashMap::contains_key`: whether the key is bound.
#[verifier::external_body]
pub(crate) fn index_contains_key(m: &OffsetIndex, key: &String) -> (r: bool)
    ensures
        r == index_contents(*m).contains_key(key@),
{
    m.contains_key(key)
}

/// `DashMap::iter`: every entry once, in an order that is not specified.
#[verifier::external_body]
pub(crate) fn index_entries(m: &OffsetIndex) -> (entries: Vec<(String, u64)>)
    ensures
        lists_entries(entries@, index_contents(*m)),
{
    m.iter().map(|entry| (entry.key().clone(), *entry.value())).collect()
}

} // verus!
