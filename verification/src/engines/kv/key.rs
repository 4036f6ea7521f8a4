//! Internal keys: a user key tagged with a sequence number and a command,
//! ordered so that the newest entry of a user key comes first.
//!
//! User keys are ordered by the bytes of their UTF-8 encoding, which is the
//! order of `str`. Internal keys are ordered by user key ascending, then by
//! sequence number descending; the command takes no part in the order.

use vstd::prelude::*;
use vstd::utf8::{encode_utf8, encode_utf8_decode_utf8};
use vstd::std_specs::cmp::{PartialEqSpecImpl, PartialOrdSpecImpl};
use std::cmp::Ordering;
use crate::engines::kv::codec::Command;

verus! {

/// Largest sequence number an internal key carries.
pub const MAX_SEQUENCE_NUM: u64 = 0xff_ffff_ffff_ffff;

// ---------------------------------------------------------------------------
// The order of user keys
// ---------------------------------------------------------------------------

/// Lexicographic order of byte strings.
pub open spec fn bytes_lt(a: Seq<u8>, b: Seq<u8>) -> bool
    decreases a.len(),
{
    if b.len() == 0 {
        false
    } else if a.len() == 0 {
        true
    } else if a[0] != b[0] {
        a[0] < b[0]
    } else {
        bytes_lt(a.skip(1), b.skip(1))
    }
}

/// The order of user keys: by the bytes of their UTF-8 encoding.
pub open spec fn user_key_lt(a: Seq<char>, b: Seq<char>) -> bool {
    bytes_lt(encode_utf8(a), encode_utf8(b))
}

/// `a` is `b` or comes before it.
pub open spec fn user_key_le(a: Seq<char>, b: Seq<char>) -> bool {
    a == b || user_key_lt(a, b)
}

/// No byte string comes before itself.
pub proof fn lemma_bytes_lt_irreflexive(a: Seq<u8>)
    ensures
        !bytes_lt(a, a),
    decreases a.len(),
{
    if a.len() > 0 {
        lemma_bytes_lt_irreflexive(a.skip(1));
    }
}

/// The order of byte strings is transitive.
pub proof fn lemma_bytes_lt_transitive(a: Seq<u8>, b: Seq<u8>, c: Seq<u8>)
    requires
        bytes_lt(a, b),
        bytes_lt(b, c),
    ensures
        bytes_lt(a, c),
    decreases a.len(),
{
    if a.len() > 0 && a[0] == b[0] && b[0] == c[0] {
        lemma_bytes_lt_transitive(a.skip(1), b.skip(1), c.skip(1));
    }
}

/// Of two byte strings one comes before the other, or they are the same;
/// and never both come before each other.
pub proof fn lemma_bytes_lt_total(a: Seq<u8>, b: Seq<u8>)
    ensures
        bytes_lt(a, b) || bytes_lt(b, a) || a == b,
        !(bytes_lt(a, b) && bytes_lt(b, a)),
    decreases a.len(),
{
    if a.len() > 0 && b.len() > 0 && a[0] == b[0] {
        lemma_bytes_lt_total(a.skip(1), b.skip(1));
        if a.skip(1) == b.skip(1) {
            assert(a =~= seq![a[0]] + a.skip(1));
            assert(b =~= seq![b[0]] + b.skip(1));
        }
    } else if a.len() == 0 && b.len() == 0 {
        assert(a =~= b);
    }
}

/// No user key comes before itself.
pub proof fn lemma_user_key_lt_irreflexive(a: Seq<char>)
    ensures
        !user_key_lt(a, a),
{
    lemma_bytes_lt_irreflexive(encode_utf8(a));
}

/// The order of user keys is transitive.
pub proof fn lemma_user_key_lt_transitive(a: Seq<char>, b: Seq<char>, c: Seq<char>)
    requires
        user_key_lt(a, b),
        user_key_lt(b, c),
    ensures
        user_key_lt(a, c),
{
    lemma_bytes_lt_transitive(encode_utf8(a), encode_utf8(b), encode_utf8(c));
}

/// Of two user keys one comes before the other, or they are the same; and
/// never both come before each other.
pub proof fn lemma_user_key_lt_total(a: Seq<char>, b: Seq<char>)
    ensures
        user_key_lt(a, b) || user_key_lt(b, a) || a == b,
        !(user_key_lt(a, b) && user_key_lt(b, a)),
        a == b ==> !user_key_lt(a, b),
{
    lemma_bytes_lt_total(encode_utf8(a), encode_utf8(b));
    lemma_bytes_lt_irreflexive(encode_utf8(a));
    if encode_utf8(a) == encode_utf8(b) {
        encode_utf8_decode_utf8(a);
        encode_utf8_decode_utf8(b);
    }
}

/// `le` followed by `lt`, or `lt` followed by `le`, is `lt`; `le` is
/// transitive.
pub proof fn lemma_user_key_le_lt(a: Seq<char>, b: Seq<char>, c: Seq<char>)
    ensures
        user_key_le(a, b) && user_key_lt(b, c) ==> user_key_lt(a, c),
        user_key_lt(a, b) && user_key_le(b, c) ==> user_key_lt(a, c),
        user_key_le(a, b) && user_key_le(b, c) ==> user_key_le(a, c),
        !user_key_lt(a, b) <==> user_key_le(b, a),
{
    lemma_user_key_lt_total(a, b);
    if user_key_lt(a, b) && user_key_lt(b, c) {
        lemma_user_key_lt_transitive(a, b, c);
    }
}

/// The order of user keys is a strict total order, for all user keys at
/// once.
pub proof fn lemma_user_key_order()
    ensures
        forall|a: Seq<char>, b: Seq<char>|
            #![trigger user_key_lt(a, b)]
            (!user_key_lt(a, b) <==> user_key_le(b, a)) && !(user_key_lt(a, b) && user_key_lt(
                b,
                a,
            )),
        forall|a: Seq<char>, b: Seq<char>, c: Seq<char>|
            #![trigger user_key_lt(a, b), user_key_lt(b, c)]
            user_key_lt(a, b) && user_key_lt(b, c) ==> user_key_lt(a, c),
{
    assert forall|a: Seq<char>, b: Seq<char>|
        #![trigger user_key_lt(a, b)]
        (!user_key_lt(a, b) <==> user_key_le(b, a)) && !(user_key_lt(a, b) && user_key_lt(
            b,
            a,
        )) by {
        lemma_user_key_lt_total(a, b);
        lemma_user_key_lt_total(b, a);
    }
    assert forall|a: Seq<char>, b: Seq<char>, c: Seq<char>|
        #![trigger user_key_lt(a, b), user_key_lt(b, c)]
        user_key_lt(a, b) && user_key_lt(b, c) implies user_key_lt(a, c) by {
        lemma_user_key_lt_transitive(a, b, c);
    }
}

/// Whether the bytes `a` come before the bytes `b`.
pub fn bytes_less(a: &[u8], b: &[u8]) -> (r: bool)
    ensures
        r == bytes_lt(a@, b@),
{
    let mut i: usize = 0;
    assert(a@.skip(0) =~= a@ && b@.skip(0) =~= b@);
    while i < a.len() && i < b.len()
        invariant
            i <= a.len(),
            i <= b.len(),
            bytes_lt(a@, b@) == bytes_lt(a@.skip(i as int), b@.skip(i as int)),
        decreases a.len() - i,
    {
        let ghost sa = a@.skip(i as int);
        let ghost sb = b@.skip(i as int);
        assert(sa[0] == a@[i as int] && sb[0] == b@[i as int]);
        if a[i] != b[i] {
            return a[i] < b[i];
        }
        assert(sa.skip(1) =~= a@.skip(i + 1));
        assert(sb.skip(1) =~= b@.skip(i + 1));
        i = i + 1;
    }
    i < b.len()
}

/// Whether the user key `a` comes before the user key `b`.
pub fn user_key_less(a: &str, b: &str) -> (r: bool)
    ensures
        r == user_key_lt(a@, b@),
{
    bytes_less(a.as_bytes(), b.as_bytes())
}

/// Whether the user key `a` is `b` or comes before it.
pub fn user_key_at_most(a: &str, b: &str) -> (r: bool)
    ensures
        r == user_key_le(a@, b@),
{
    proof {
        lemma_user_key_le_lt(b@, a@, a@);
    }
    !user_key_less(b, a)
}

// ---------------------------------------------------------------------------
// Internal keys
// ---------------------------------------------------------------------------

/// A user key tagged with a sequence number and a command.
#[derive(Debug)]
pub struct InternalKey {
    pub sequence_num: u64,
    pub user_key: String,
    pub command: Command,
}

/// An internal key as a mathematical value.
pub struct InternalKeyView {
    pub sequence_num: u64,
    pub user_key: Seq<char>,
    pub command: Command,
}

impl View for InternalKey {
    type V = InternalKeyView;

    open spec fn view(&self) -> InternalKeyView {
        InternalKeyView {
            sequence_num: self.sequence_num,
            user_key: self.user_key@,
            command: self.command,
        }
    }
}

/// `a` sorts before `b`: its user key comes first, or the user keys are the
/// same and `a` is the newer.
pub open spec fn key_lt(a: InternalKeyView, b: InternalKeyView) -> bool {
    user_key_lt(a.user_key, b.user_key) || (a.user_key == b.user_key && a.sequence_num
        > b.sequence_num)
}

/// `a` and `b` take the same place in the order.
pub open spec fn key_same(a: InternalKeyView, b: InternalKeyView) -> bool {
    a.user_key == b.user_key && a.sequence_num == b.sequence_num
}

/// `a` sorts before `b` or takes the same place.
pub open spec fn key_le(a: InternalKeyView, b: InternalKeyView) -> bool {
    key_lt(a, b) || key_same(a, b)
}

/// The order of internal keys is a strict total order on the pairs of user
/// key and sequence number.
pub proof fn lemma_key_order(a: InternalKeyView, b: InternalKeyView, c: InternalKeyView)
    ensures
        !key_lt(a, a),
        key_lt(a, b) && key_lt(b, c) ==> key_lt(a, c),
        key_le(a, b) && key_lt(b, c) ==> key_lt(a, c),
        key_lt(a, b) && key_le(b, c) ==> key_lt(a, c),
        key_le(a, b) && key_le(b, c) ==> key_le(a, c),
        key_lt(a, b) || key_lt(b, a) || key_same(a, b),
        !(key_lt(a, b) && key_lt(b, a)),
        key_same(a, b) ==> !key_lt(a, b),
        !key_lt(a, b) <==> key_le(b, a),
{
    lemma_user_key_lt_total(a.user_key, b.user_key);
    lemma_user_key_lt_total(b.user_key, c.user_key);
    lemma_user_key_lt_total(a.user_key, c.user_key);
    lemma_user_key_lt_irreflexive(a.user_key);
    if user_key_lt(a.user_key, b.user_key) && user_key_lt(b.user_key, c.user_key) {
        lemma_user_key_lt_transitive(a.user_key, b.user_key, c.user_key);
    }
}

/// For one user key, the entry with the greater sequence number sorts
/// first.
pub proof fn lemma_newer_sorts_first(a: InternalKeyView, b: InternalKeyView)
    requires
        a.user_key == b.user_key,
        a.sequence_num > b.sequence_num,
    ensures
        key_lt(a, b),
        !key_lt(b, a),
{
    lemma_user_key_lt_irreflexive(a.user_key);
}

impl InternalKey {
    /// The key of a user key, a sequence number and a command.
    pub fn new(user_key: &String, sequence_num: u64, command: Command) -> (key: InternalKey)
        ensures
            key@ == (InternalKeyView { sequence_num, user_key: user_key@, command }),
    {
        InternalKey { sequence_num, user_key: user_key.clone(), command }
    }

    /// Whether this key sorts before `other`.
    pub fn precedes(&self, other: &InternalKey) -> (r: bool)
        ensures
            r == key_lt(self@, other@),
    {
        proof {
            lemma_user_key_lt_total(self.user_key@, other.user_key@);
        }
        if self.user_key == other.user_key {
            self.sequence_num > other.sequence_num
        } else {
            user_key_less(self.user_key.as_str(), other.user_key.as_str())
        }
    }

    /// Whether this key and `other` take the same place in the order.
    pub fn same_place(&self, other: &InternalKey) -> (r: bool)
        ensures
            r == key_same(self@, other@),
    {
        self.user_key == other.user_key && self.sequence_num == other.sequence_num
    }
}

impl Clone for InternalKey {
    fn clone(&self) -> (key: InternalKey)
        ensures
            key@ == self@,
    {
        InternalKey {
            sequence_num: self.sequence_num,
            user_key: self.user_key.clone(),
            command: self.command,
        }
    }
}

impl PartialEq for InternalKey {
    fn eq(&self, other: &InternalKey) -> (r: bool) {
        self.user_key == other.user_key && self.sequence_num == other.sequence_num && self.command
            == other.command
    }
}

impl PartialEqSpecImpl for InternalKey {
    open spec fn obeys_eq_spec() -> bool {
        true
    }

    open spec fn eq_spec(&self, other: &InternalKey) -> bool {
        self.user_key@ == other.user_key@ && self.sequence_num == other.sequence_num
            && self.command == other.command
    }
}

impl PartialOrd for InternalKey {
    fn partial_cmp(&self, other: &InternalKey) -> (r: Option<Ordering>) {
        proof {
            lemma_user_key_lt_total(self.user_key@, other.user_key@);
        }
        if self.user_key == other.user_key {
            if self.sequence_num > other.sequence_num {
                Some(Ordering::Less)
            } else if self.sequence_num < other.sequence_num {
                Some(Ordering::Greater)
            } else {
                Some(Ordering::Equal)
            }
        } else if user_key_less(self.user_key.as_str(), other.user_key.as_str()) {
            Some(Ordering::Less)
        } else {
            Some(Ordering::Greater)
        }
    }
}

impl PartialOrdSpecImpl for InternalKey {
    open spec fn obeys_partial_cmp_spec() -> bool {
        true
    }

    open spec fn partial_cmp_spec(&self, other: &InternalKey) -> Option<Ordering> {
        if key_lt(self@, other@) {
            Some(Ordering::Less)
        } else if key_lt(other@, self@) {
            Some(Ordering::Greater)
        } else {
            Some(Ordering::Equal)
        }
    }
}

} // verus!
