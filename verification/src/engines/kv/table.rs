//! Sorted tables: the frame of one entry, a whole table as bytes, and the
//! lookup of a key in a table.
//!
//! An entry is written as the length of its key as eight little-endian
//! bytes, the key, the place of the value as eight little-endian bytes, and
//! the length of the value as eight little-endian bytes. A key is written as
//! the UTF-8 bytes of the user key, the sequence number as eight
//! little-endian bytes, and one byte for the command.

use vstd::prelude::*;
use vstd::bytes::{
    lemma_auto_spec_u64_to_from_le_bytes, spec_u64_from_le_bytes, spec_u64_to_le_bytes,
    u64_from_le_bytes, u64_to_le_bytes,
};
use vstd::slice::slice_subrange;
use vstd::utf8::{decode_utf8, encode_utf8, encode_utf8_decode_utf8, encode_utf8_valid_utf8, valid_utf8};
use crate::engines::kv::codec::{string_from_utf8, Command};
use crate::engines::kv::key::{key_lt, InternalKey, InternalKeyView};
use crate::error::KVSError;

verus! {

/// One entry of a table: a key with the place and the length of its value.
#[derive(Debug)]
pub struct Entry {
    pub key: InternalKey,
    pub pos: i64,
    pub len: usize,
}

/// An entry as a mathematical value.
pub struct EntryView {
    pub key: InternalKeyView,
    pub pos: i64,
    pub len: usize,
}

impl View for Entry {
    type V = EntryView;

    open spec fn view(&self) -> EntryView {
        EntryView { key: self.key@, pos: self.pos, len: self.len }
    }
}

impl Clone for Entry {
    fn clone(&self) -> (e: Entry)
        ensures
            e@ == self@,
    {
        Entry { key: self.key.clone(), pos: self.pos, len: self.len }
    }
}

/// The entries of a list, as mathematical values.
pub open spec fn entry_views(entries: Seq<Entry>) -> Seq<EntryView> {
    entries.map_values(|e: Entry| e@)
}

// ---------------------------------------------------------------------------
// The bytes of a table
// ---------------------------------------------------------------------------

/// The byte that stands for a command.
pub open spec fn command_byte(cmd: Command) -> u8 {
    match cmd {
        Command::Put => 0,
        Command::Remove => 1,
        Command::Seek => 2,
    }
}

/// The command that a byte stands for.
pub open spec fn byte_command(b: u8) -> Option<Command> {
    if b == 0 {
        Some(Command::Put)
    } else if b == 1 {
        Some(Command::Remove)
    } else if b == 2 {
        Some(Command::Seek)
    } else {
        None
    }
}

/// The place of a value as the unsigned number that is written.
pub open spec fn place_bits(pos: i64) -> u64 {
    if pos >= 0 {
        pos as u64
    } else {
        (pos + 0x1_0000_0000_0000_0000) as u64
    }
}

/// The place of a value that an unsigned number stands for.
pub open spec fn bits_place(bits: u64) -> i64 {
    if bits <= i64::MAX {
        bits as i64
    } else {
        (bits - 0x1_0000_0000_0000_0000) as i64
    }
}

/// The bytes of a key.
pub open spec fn key_bytes(k: InternalKeyView) -> Seq<u8> {
    encode_utf8(k.user_key) + spec_u64_to_le_bytes(k.sequence_num) + seq![command_byte(k.command)]
}

/// What follows the length of the key in the frame of an entry.
pub open spec fn entry_body(e: EntryView) -> Seq<u8> {
    key_bytes(e.key) + spec_u64_to_le_bytes(place_bits(e.pos)) + spec_u64_to_le_bytes(e.len as u64)
}

/// The frame of an entry.
pub open spec fn entry_bytes(e: EntryView) -> Seq<u8> {
    spec_u64_to_le_bytes(key_bytes(e.key).len() as u64) + entry_body(e)
}

/// Whether the key of an entry is short enough for its length to be
/// written.
pub open spec fn fits(e: EntryView) -> bool {
    key_bytes(e.key).len() <= u64::MAX
}

/// The bytes of a table that holds the entries in order.
pub open spec fn table_bytes(entries: Seq<EntryView>) -> Seq<u8>
    decreases entries.len(),
{
    if entries.len() == 0 {
        Seq::empty()
    } else {
        table_bytes(entries.drop_last()) + entry_bytes(entries.last())
    }
}

/// The entry that the bytes start with, and how many bytes its frame
/// takes.
pub open spec fn parse_entry(bytes: Seq<u8>) -> Option<(EntryView, int)> {
    if bytes.len() < 8 {
        None
    } else {
        let klen = spec_u64_from_le_bytes(bytes.subrange(0, 8)) as int;
        if klen < 9 || bytes.len() < 24 + klen {
            None
        } else {
            let user = bytes.subrange(8, klen - 1);
            let seq_bytes = bytes.subrange(klen - 1, klen + 7);
            let tag = bytes[klen + 7];
            let pos_bytes = bytes.subrange(klen + 8, klen + 16);
            let len_bytes = bytes.subrange(klen + 16, klen + 24);
            let len = spec_u64_from_le_bytes(len_bytes);
            if valid_utf8(user) && byte_command(tag) is Some && len <= usize::MAX {
                Some(
                    (
                        EntryView {
                            key: InternalKeyView {
                                sequence_num: spec_u64_from_le_bytes(seq_bytes),
                                user_key: decode_utf8(user),
                                command: byte_command(tag).unwrap(),
                            },
                            pos: bits_place(spec_u64_from_le_bytes(pos_bytes)),
                            len: len as usize,
                        },
                        24 + klen,
                    ),
                )
            } else {
                None
            }
        }
    }
}

/// The entries that the bytes of a table hold, read frame by frame from the
/// start. `None` where the bytes are not a sequence of frames.
pub open spec fn parse_table(bytes: Seq<u8>) -> Option<Seq<EntryView>>
    decreases bytes.len(),
{
    if bytes.len() == 0 {
        Some(Seq::empty())
    } else {
        match parse_entry(bytes) {
            None => None,
            Some((e, n)) => {
                if 0 < n <= bytes.len() {
                    match parse_table(bytes.skip(n)) {
                        None => None,
                        Some(rest) => Some(seq![e] + rest),
                    }
                } else {
                    None
                }
            },
        }
    }
}

/// `parse_table` with entries already read put in front.
pub open spec fn with_entries(done: Seq<EntryView>, rest: Option<Seq<EntryView>>) -> Option<
    Seq<EntryView>,
> {
    match rest {
        None => None,
        Some(more) => Some(done + more),
    }
}

/// Writing a place as bits and reading it back gives the place.
pub proof fn lemma_place_round_trip(pos: i64)
    ensures
        bits_place(place_bits(pos)) == pos,
{
}

/// Reading the frame of an entry, with anything after it, gives the entry
/// and the length of the frame.
pub proof fn lemma_parse_entry_of_entry_bytes(e: EntryView, rest: Seq<u8>)
    requires
        fits(e),
    ensures
        parse_entry(entry_bytes(e) + rest) == Some((e, entry_bytes(e).len() as int)),
        entry_bytes(e).len() >= 33,
{
    lemma_auto_spec_u64_to_from_le_bytes();
    let kb = key_bytes(e.key);
    let user = encode_utf8(e.key.user_key);
    let klen = kb.len() as int;
    let bytes = entry_bytes(e) + rest;
    assert(klen == user.len() + 9);
    assert(bytes.subrange(0, 8) =~= spec_u64_to_le_bytes(klen as u64));
    assert(bytes.subrange(8, klen - 1) =~= user);
    assert(bytes.subrange(klen - 1, klen + 7) =~= spec_u64_to_le_bytes(e.key.sequence_num));
    assert(bytes[klen + 7] == command_byte(e.key.command));
    assert(bytes.subrange(klen + 8, klen + 16) =~= spec_u64_to_le_bytes(place_bits(e.pos)));
    assert(bytes.subrange(klen + 16, klen + 24) =~= spec_u64_to_le_bytes(e.len as u64));
    encode_utf8_valid_utf8(e.key.user_key);
    encode_utf8_decode_utf8(e.key.user_key);
    lemma_place_round_trip(e.pos);
}

/// Reading bits as a place and writing the place gives the bits.
pub proof fn lemma_bits_round_trip(bits: u64)
    ensures
        place_bits(bits_place(bits)) == bits,
{
}

/// What `parse_entry` reads is the frame of the entry it returns.
pub proof fn lemma_parse_entry_sound(bytes: Seq<u8>)
    requires
        parse_entry(bytes) is Some,
    ensures
        0 < parse_entry(bytes).unwrap().1 <= bytes.len(),
        bytes.take(parse_entry(bytes).unwrap().1) == entry_bytes(parse_entry(bytes).unwrap().0),
        fits(parse_entry(bytes).unwrap().0),
{
    lemma_auto_spec_u64_to_from_le_bytes();
    let (e, n) = parse_entry(bytes).unwrap();
    let klen = spec_u64_from_le_bytes(bytes.subrange(0, 8)) as int;
    let user = bytes.subrange(8, klen - 1);
    let seq_bytes = bytes.subrange(klen - 1, klen + 7);
    let tag = bytes[klen + 7];
    let pos_bytes = bytes.subrange(klen + 8, klen + 16);
    let len_bytes = bytes.subrange(klen + 16, klen + 24);
    vstd::utf8::decode_utf8_encode_utf8(user);
    assert(encode_utf8(e.key.user_key) == user);
    assert(spec_u64_to_le_bytes(e.key.sequence_num) == seq_bytes);
    assert(command_byte(e.key.command) == tag);
    lemma_bits_round_trip(spec_u64_from_le_bytes(pos_bytes));
    assert(spec_u64_to_le_bytes(place_bits(e.pos)) == pos_bytes);
    assert(spec_u64_to_le_bytes(e.len as u64) == len_bytes);
    assert(key_bytes(e.key).len() == klen);
    assert(spec_u64_to_le_bytes(klen as u64) == bytes.subrange(0, 8));
    assert(bytes.take(n) =~= entry_bytes(e));
}

/// Bytes that read as a table are the bytes of the table of the entries
/// that they read as.
pub proof fn lemma_parse_table_sound(bytes: Seq<u8>)
    requires
        parse_table(bytes) is Some,
    ensures
        bytes == table_bytes(parse_table(bytes).unwrap()),
        all_fit(parse_table(bytes).unwrap()),
    decreases bytes.len(),
{
    let entries = parse_table(bytes).unwrap();
    if bytes.len() == 0 {
        assert(bytes =~= table_bytes(entries));
    } else {
        let (e, n) = parse_entry(bytes).unwrap();
        let rest = parse_table(bytes.skip(n)).unwrap();
        lemma_parse_entry_sound(bytes);
        lemma_parse_table_sound(bytes.skip(n));
        lemma_table_bytes_concat(seq![e], rest);
        assert(seq![e].drop_last() =~= Seq::<EntryView>::empty());
        assert(table_bytes(seq![e].drop_last()) =~= Seq::<u8>::empty());
        assert(table_bytes(seq![e]) =~= entry_bytes(e));
        assert(bytes =~= bytes.take(n) + bytes.skip(n));
        assert forall|i: int| 0 <= i < entries.len() implies fits(#[trigger] entries[i]) by {
            if i > 0 {
                assert(entries[i] == rest[i - 1]);
            }
        }
    }
}

/// The bytes of a table of two runs of entries are the bytes of the first
/// followed by the bytes of the second.
pub proof fn lemma_table_bytes_concat(a: Seq<EntryView>, b: Seq<EntryView>)
    ensures
        table_bytes(a + b) == table_bytes(a) + table_bytes(b),
    decreases b.len(),
{
    if b.len() == 0 {
        assert(a + b =~= a);
        assert(table_bytes(a) + table_bytes(b) =~= table_bytes(a));
    } else {
        assert((a + b).drop_last() =~= a + b.drop_last());
        assert((a + b).last() == b.last());
        lemma_table_bytes_concat(a, b.drop_last());
        assert(table_bytes(a) + table_bytes(b.drop_last()) + entry_bytes(b.last()) =~= table_bytes(a)
            + (table_bytes(b.drop_last()) + entry_bytes(b.last())));
    }
}

/// The bytes of a table read back give the entries of the table.
pub proof fn lemma_parse_table_of_table_bytes(entries: Seq<EntryView>)
    requires
        forall|i: int| 0 <= i < entries.len() ==> fits(#[trigger] entries[i]),
    ensures
        parse_table(table_bytes(entries)) == Some(entries),
    decreases entries.len(),
{
    if entries.len() > 0 {
        let first = entries[0];
        let rest = entries.skip(1);
        assert(entries =~= seq![first] + rest);
        lemma_table_bytes_concat(seq![first], rest);
        assert(seq![first].drop_last() =~= Seq::<EntryView>::empty());
        assert(table_bytes(seq![first].drop_last()) =~= Seq::<u8>::empty());
        assert(table_bytes(seq![first]) =~= entry_bytes(first));
        let bytes = table_bytes(entries);
        assert(bytes == entry_bytes(first) + table_bytes(rest));
        lemma_parse_entry_of_entry_bytes(first, table_bytes(rest));
        assert(bytes.skip(entry_bytes(first).len() as int) =~= table_bytes(rest));
        assert forall|i: int| 0 <= i < rest.len() implies fits(#[trigger] rest[i]) by {
            assert(rest[i] == entries[i + 1]);
        }
        lemma_parse_table_of_table_bytes(rest);
    }
}

// ---------------------------------------------------------------------------
// Writing and reading tables
// ---------------------------------------------------------------------------

fn command_to_byte(cmd: Command) -> (b: u8)
    ensures
        b == command_byte(cmd),
{
    match cmd {
        Command::Put => 0,
        Command::Remove => 1,
        Command::Seek => 2,
    }
}

fn place_to_bits(pos: i64) -> (bits: u64)
    ensures
        bits == place_bits(pos),
{
    if pos >= 0 {
        pos as u64
    } else {
        let up: i128 = pos as i128 + 0x1_0000_0000_0000_0000i128;
        up as u64
    }
}

fn bits_to_place(bits: u64) -> (pos: i64)
    ensures
        pos == bits_place(bits),
{
    if bits <= i64::MAX as u64 {
        bits as i64
    } else {
        let down: i128 = bits as i128 - 0x1_0000_0000_0000_0000i128;
        down as i64
    }
}

/// Appends the frame of an entry. Fails with `Corrupt`, appending
/// nothing, exactly when the key is too long for its length to be written.
pub fn encode_entry(out: &mut Vec<u8>, e: &Entry) -> (r: Result<(), KVSError>)
    ensures
        fits(e@) ==> r is Ok && final(out)@ == old(out)@ + entry_bytes(e@),
        !fits(e@) ==> r == Err::<(), KVSError>(KVSError::Corrupt) && final(out)@ == old(out)@,
{
    let ghost before = out@;
    let user = e.key.user_key.as_str().as_bytes();
    proof {
        lemma_auto_spec_u64_to_from_le_bytes();
    }
    if user.len() as u64 > u64::MAX - 9 {
        return Err(KVSError::Corrupt);
    }
    let klen: u64 = user.len() as u64 + 9;
    let a = u64_to_le_bytes(klen);
    out.extend_from_slice(a.as_slice());
    out.extend_from_slice(user);
    let b = u64_to_le_bytes(e.key.sequence_num);
    out.extend_from_slice(b.as_slice());
    out.push(command_to_byte(e.key.command));
    let c = u64_to_le_bytes(place_to_bits(e.pos));
    out.extend_from_slice(c.as_slice());
    let d = u64_to_le_bytes(e.len as u64);
    out.extend_from_slice(d.as_slice());
    assert(out@ =~= before + entry_bytes(e@));
    Ok(())
}

/// Whether the key of every entry is short enough to be written.
pub open spec fn all_fit(entries: Seq<EntryView>) -> bool {
    forall|i: int| 0 <= i < entries.len() ==> fits(#[trigger] entries[i])
}

/// The bytes of a table that holds the entries in order. Fails with
/// `Corrupt` exactly when the key of an entry is too long to be written.
pub fn encode_table(entries: &Vec<Entry>) -> (r: Result<Vec<u8>, KVSError>)
    ensures
        match r {
            Ok(bytes) => all_fit(entry_views(entries@)) && bytes@ == table_bytes(
                entry_views(entries@),
            ),
            Err(e) => e == KVSError::Corrupt && !all_fit(entry_views(entries@)),
        },
{
    let mut out: Vec<u8> = Vec::new();
    let ghost all = entry_views(entries@);
    let mut i: usize = 0;
    assert(all.take(0) =~= Seq::<EntryView>::empty());
    while i < entries.len()
        invariant
            i <= entries.len(),
            all == entry_views(entries@),
            out@ == table_bytes(all.take(i as int)),
            forall|j: int| 0 <= j < i ==> fits(#[trigger] all[j]),
        decreases entries.len() - i,
    {
        assert(all.take(i + 1).drop_last() =~= all.take(i as int));
        assert(all.take(i + 1).last() == entries@[i as int]@);
        assert(all[i as int] == entries@[i as int]@);
        match encode_entry(&mut out, &entries[i]) {
            Ok(()) => {},
            Err(e) => {
                return Err(e);
            },
        }
        i = i + 1;
    }
    assert(all.take(i as int) =~= all);
    Ok(out)
}

/// Reads the frame of one entry at `pos`.
fn decode_entry(bytes: &[u8], pos: usize) -> (r: Option<(Entry, usize)>)
    requires
        pos <= bytes.len(),
    ensures
        match r {
            Some((e, next)) => parse_entry(bytes@.skip(pos as int)) == Some((e@, next - pos))
                && pos < next <= bytes.len(),
            None => parse_entry(bytes@.skip(pos as int)) is None,
        },
{
    let ghost s = bytes@.skip(pos as int);
    let left: usize = bytes.len() - pos;
    if left < 8 {
        return None;
    }
    let klen_bytes = slice_subrange(bytes, pos, pos + 8);
    assert(klen_bytes@ =~= s.subrange(0, 8));
    let klen64: u64 = u64_from_le_bytes(klen_bytes);
    if klen64 < 9 || left < 24 || klen64 > (left - 24) as u64 {
        return None;
    }
    let klen: usize = klen64 as usize;
    let user = slice_subrange(bytes, pos + 8, pos + klen - 1);
    assert(user@ =~= s.subrange(8, klen - 1));
    let seq_bytes = slice_subrange(bytes, pos + klen - 1, pos + klen + 7);
    assert(seq_bytes@ =~= s.subrange(klen - 1, klen + 7));
    let tag: u8 = bytes[pos + klen + 7];
    assert(tag == s[klen + 7]);
    let pos_bytes = slice_subrange(bytes, pos + klen + 8, pos + klen + 16);
    assert(pos_bytes@ =~= s.subrange(klen + 8, klen + 16));
    let len_bytes = slice_subrange(bytes, pos + klen + 16, pos + klen + 24);
    assert(len_bytes@ =~= s.subrange(klen + 16, klen + 24));
    let len64: u64 = u64_from_le_bytes(len_bytes);
    let command = if tag == 0 {
        Command::Put
    } else if tag == 1 {
        Command::Remove
    } else if tag == 2 {
        Command::Seek
    } else {
        return None;
    };
    if len64 > usize::MAX as u64 {
        return None;
    }
    let mut user_vec: Vec<u8> = Vec::new();
    user_vec.extend_from_slice(user);
    assert(user_vec@ =~= user@);
    let user_key = match string_from_utf8(user_vec) {
        None => {
            return None;
        },
        Some(text) => text,
    };
    let e = Entry {
        key: InternalKey { sequence_num: u64_from_le_bytes(seq_bytes), user_key, command },
        pos: bits_to_place(u64_from_le_bytes(pos_bytes)),
        len: len64 as usize,
    };
    Some((e, pos + klen + 24))
}

/// The entries that the bytes of a table hold. Fails with `Corrupt` on
/// bytes that are not a sequence of entry frames.
pub fn decode_table(bytes: &[u8]) -> (r: Result<Vec<Entry>, KVSError>)
    ensures
        match r {
            Ok(entries) => parse_table(bytes@) == Some(entry_views(entries@)),
            Err(e) => e == KVSError::Corrupt && parse_table(bytes@) is None,
        },
{
    let mut entries: Vec<Entry> = Vec::new();
    let mut pos: usize = 0;
    proof {
        assert(bytes@.skip(0) =~= bytes@);
        match parse_table(bytes@) {
            None => {},
            Some(more) => {
                assert(entry_views(entries@) + more =~= more);
            },
        }
    }
    while pos < bytes.len()
        invariant
            pos <= bytes.len(),
            parse_table(bytes@) == with_entries(
                entry_views(entries@),
                parse_table(bytes@.skip(pos as int)),
            ),
        decreases bytes.len() - pos,
    {
        let ghost s = bytes@.skip(pos as int);
        let ghost done = entry_views(entries@);
        match decode_entry(bytes, pos) {
            None => {
                return Err(KVSError::Corrupt);
            },
            Some((e, next)) => {
                proof {
                    assert(s.skip(next - pos) =~= bytes@.skip(next as int));
                    match parse_table(bytes@.skip(next as int)) {
                        None => {},
                        Some(more) => {
                            assert(done + (seq![e@] + more) =~= done.push(e@) + more);
                        },
                    }
                }
                entries.push(e);
                assert(entry_views(entries@) =~= done.push(e@));
                pos = next;
            },
        }
    }
    proof {
        assert(bytes@.skip(pos as int) =~= Seq::<u8>::empty());
        assert(entry_views(entries@) + Seq::<EntryView>::empty() =~= entry_views(entries@));
    }
    Ok(entries)
}

// ---------------------------------------------------------------------------
// Looking a key up
// ---------------------------------------------------------------------------

/// The first place from `i` on whose entry does not sort before `key`; the
/// length of the list where every entry from `i` on sorts before it.
pub open spec fn first_at_or_after(entries: Seq<EntryView>, key: InternalKeyView, i: int) -> int
    decreases entries.len() - i,
{
    if i < 0 || i >= entries.len() || !key_lt(entries[i].key, key) {
        i
    } else {
        first_at_or_after(entries, key, i + 1)
    }
}

/// What a lookup of `key` in the entries sees: the first entry that does
/// not sort before the key, where it is an entry of the key's user key.
pub open spec fn seek(entries: Seq<EntryView>, key: InternalKeyView) -> Option<(i64, usize)> {
    let at = first_at_or_after(entries, key, 0);
    if 0 <= at < entries.len() && entries[at].key.user_key == key.user_key {
        Some((entries[at].pos, entries[at].len))
    } else {
        None
    }
}

/// Looks `key` up in the entries of a table.
pub fn seek_entry(entries: &Vec<Entry>, key: &InternalKey) -> (r: Option<(i64, usize)>)
    ensures
        r == seek(entry_views(entries@), key@),
{
    let ghost all = entry_views(entries@);
    let mut i: usize = 0;
    while i < entries.len() && entries[i].key.precedes(key)
        invariant
            i <= entries.len(),
            all == entry_views(entries@),
            first_at_or_after(all, key@, 0) == first_at_or_after(all, key@, i as int),
        decreases entries.len() - i,
    {
        i = i + 1;
    }
    if i < entries.len() && entries[i].key.user_key == key.user_key {
        Some((entries[i].pos, entries[i].len))
    } else {
        None
    }
}

/// What a lookup of `key` in the bytes of a table gives: `Corrupt` where
/// the bytes are no table, else what the lookup sees in its entries.
pub open spec fn table_lookup(bytes: Seq<u8>, key: InternalKeyView) -> Result<
    Option<(i64, usize)>,
    KVSError,
> {
    match parse_table(bytes) {
        None => Err(KVSError::Corrupt),
        Some(entries) => Ok(seek(entries, key)),
    }
}

/// Looks `key` up in the bytes of a table.
pub fn lookup_in_table(bytes: &[u8], key: &InternalKey) -> (r: Result<
    Option<(i64, usize)>,
    KVSError,
>)
    ensures
        r == table_lookup(bytes@, key@),
{
    let entries = decode_table(bytes)?;
    Ok(seek_entry(&entries, key))
}

} // verus!
