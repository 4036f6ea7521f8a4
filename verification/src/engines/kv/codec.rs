//! The on-disk form of a log record: one line of text per record.
//!
//! A record `{cmd, key, value}` is written as
//! `{"cmd":"<tag>","key":"<key>","value":"<value>"}` followed by a newline,
//! where `<key>` and `<value>` are the UTF-8 bytes of the strings with the
//! quote, the backslash and every control byte escaped. The decoder accepts
//! exactly the lines that the encoder writes.

use vstd::prelude::*;
use vstd::utf8::*;
use vstd::string::*;
use crate::error::KVSError;

verus! {

/// The operation a record or an internal key stands for. `Seek` is a lookup
/// sentinel and is never written by the log-structured engine.
#[derive(Debug, Clone, Copy, PartialEq, Eq, Structural)]
pub enum Command {
    /// Bind a key to a value; written `Set` in a record.
    Put,
    /// Unbind a key.
    Remove,
    /// Locate the newest entry of a key.
    Seek,
}

/// One record of the log.
#[derive(Debug)]
pub struct Record {
    pub cmd: Command,
    pub key: String,
    pub value: String,
}

/// A record as a mathematical value.
pub struct RecordView {
    pub cmd: Command,
    pub key: Seq<char>,
    pub value: Seq<char>,
}

impl View for Record {
    type V = RecordView;

    open spec fn view(&self) -> RecordView {
        RecordView { cmd: self.cmd, key: self.key@, value: self.value@ }
    }
}

// ---------------------------------------------------------------------------
// The text of a record
// ---------------------------------------------------------------------------

/// The double quote.
pub open spec fn quote() -> u8 {
    0x22
}

/// The line terminator.
pub open spec fn newline() -> u8 {
    0x0a
}

/// The lower-case hexadecimal digit for `d < 16`.
pub open spec fn hex_digit(d: u8) -> u8 {
    if d < 10 {
        (0x30 + d) as u8
    } else {
        (0x57 + d) as u8
    }
}

/// Whether a control byte is written with one of the short escapes.
pub open spec fn has_short_escape(b: u8) -> bool {
    b == 0x08 || b == 0x09 || b == 0x0a || b == 0x0c || b == 0x0d
}

/// How one byte of a string is written inside the quotes.
#[verifier::opaque]
pub open spec fn escape_byte(b: u8) -> Seq<u8> {
    if b == 0x22 {
        seq![0x5cu8, 0x22u8]
    } else if b == 0x5c {
        seq![0x5cu8, 0x5cu8]
    } else if b == 0x08 {
        seq![0x5cu8, 0x62u8]
    } else if b == 0x09 {
        seq![0x5cu8, 0x74u8]
    } else if b == 0x0a {
        seq![0x5cu8, 0x6eu8]
    } else if b == 0x0c {
        seq![0x5cu8, 0x66u8]
    } else if b == 0x0d {
        seq![0x5cu8, 0x72u8]
    } else if b < 0x20 {
        seq![0x5cu8, 0x75u8, 0x30u8, 0x30u8, hex_digit(b / 16), hex_digit(b % 16)]
    } else {
        seq![b]
    }
}

/// How a byte string is written inside the quotes.
pub open spec fn escape(s: Seq<u8>) -> Seq<u8>
    decreases s.len(),
{
    if s.len() == 0 {
        Seq::empty()
    } else {
        escape_byte(s[0]) + escape(s.skip(1))
    }
}

/// `{"cmd":"`
#[verifier::opaque]
pub open spec fn head() -> Seq<u8> {
    seq![0x7bu8, 0x22u8, 0x63u8, 0x6du8, 0x64u8, 0x22u8, 0x3au8, 0x22u8]
}

/// `","key":"`
#[verifier::opaque]
pub open spec fn key_open() -> Seq<u8> {
    seq![0x22u8, 0x2cu8, 0x22u8, 0x6bu8, 0x65u8, 0x79u8, 0x22u8, 0x3au8, 0x22u8]
}

/// `,"value":"`, which follows the quote that closes the key.
#[verifier::opaque]
pub open spec fn value_open() -> Seq<u8> {
    seq![0x2cu8, 0x22u8, 0x76u8, 0x61u8, 0x6cu8, 0x75u8, 0x65u8, 0x22u8, 0x3au8, 0x22u8]
}

/// `}` and the newline, which follow the quote that closes the value.
#[verifier::opaque]
pub open spec fn tail() -> Seq<u8> {
    seq![0x7du8, 0x0au8]
}

/// The name of a command as it is written in a record.
#[verifier::opaque]
pub open spec fn tag(cmd: Command) -> Seq<u8> {
    match cmd {
        Command::Put => seq![0x53u8, 0x65u8, 0x74u8],
        Command::Remove => seq![0x52u8, 0x65u8, 0x6du8, 0x6fu8, 0x76u8, 0x65u8],
        Command::Seek => seq![0x53u8, 0x65u8, 0x65u8, 0x6bu8],
    }
}

/// The command's name followed by the opening of the key.
pub open spec fn tag_open(cmd: Command) -> Seq<u8> {
    tag(cmd) + key_open()
}

/// The text from the value on.
pub open spec fn after_value(value: Seq<u8>) -> Seq<u8> {
    escape(value) + seq![quote()] + tail()
}

/// The text from the key on.
pub open spec fn after_key(key: Seq<u8>, value: Seq<u8>) -> Seq<u8> {
    escape(key) + seq![quote()] + (value_open() + after_value(value))
}

/// The line for a command and two byte strings.
#[verifier::opaque]
pub open spec fn frame(cmd: Command, key: Seq<u8>, value: Seq<u8>) -> Seq<u8> {
    head() + (tag_open(cmd) + after_key(key, value))
}

/// The line that holds a record, newline included.
pub open spec fn record_line(r: RecordView) -> Seq<u8> {
    frame(r.cmd, encode_utf8(r.key), encode_utf8(r.value))
}

/// Whether some record is written as this line.
pub open spec fn is_record_line(line: Seq<u8>) -> bool {
    exists|r: RecordView| line == #[trigger] record_line(r)
}

// ---------------------------------------------------------------------------
// Reading the text back
// ---------------------------------------------------------------------------

/// The value of a lower-case hexadecimal digit.
pub open spec fn hex_value(c: u8) -> Option<u8> {
    if 0x30 <= c <= 0x39 {
        Some((c - 0x30) as u8)
    } else if 0x61 <= c <= 0x66 {
        Some((c - 0x57) as u8)
    } else {
        None
    }
}

/// The byte that the text starts with, and how many bytes of text stand for
/// it. `None` where the text starts with nothing that `escape_byte` writes.
#[verifier::opaque]
pub open spec fn chunk(s: Seq<u8>) -> Option<(u8, int)> {
    if s.len() == 0 {
        None
    } else if s[0] == 0x5c {
        if s.len() < 2 {
            None
        } else if s[1] == 0x22 {
            Some((0x22u8, 2int))
        } else if s[1] == 0x5c {
            Some((0x5cu8, 2int))
        } else if s[1] == 0x62 {
            Some((0x08u8, 2int))
        } else if s[1] == 0x74 {
            Some((0x09u8, 2int))
        } else if s[1] == 0x6e {
            Some((0x0au8, 2int))
        } else if s[1] == 0x66 {
            Some((0x0cu8, 2int))
        } else if s[1] == 0x72 {
            Some((0x0du8, 2int))
        } else if s[1] == 0x75 && s.len() >= 6 && s[2] == 0x30 && s[3] == 0x30 {
            match (hex_value(s[4]), hex_value(s[5])) {
                (Some(hi), Some(lo)) => {
                    let b = (hi * 16 + lo) as u8;
                    if hi < 2 && !has_short_escape(b) {
                        Some((b, 6int))
                    } else {
                        None
                    }
                },
                _ => None,
            }
        } else {
            None
        }
    } else if s[0] < 0x20 || s[0] == 0x22 {
        None
    } else {
        Some((s[0], 1int))
    }
}

/// Reads an escaped byte string up to the quote that closes it: the bytes it
/// stands for, and the text after the quote.
pub open spec fn unescape(s: Seq<u8>) -> Option<(Seq<u8>, Seq<u8>)>
    decreases s.len(),
{
    if s.len() == 0 {
        None
    } else if s[0] == 0x22 {
        Some((Seq::empty(), s.skip(1)))
    } else {
        match chunk(s) {
            None => None,
            Some((b, n)) => {
                if 1 <= n <= s.len() {
                    match unescape(s.skip(n)) {
                        None => None,
                        Some((d, rest)) => Some((seq![b] + d, rest)),
                    }
                } else {
                    None
                }
            },
        }
    }
}

/// Reads the command's name and the opening of the key.
pub open spec fn parse_tag(s: Seq<u8>) -> Option<(Command, Seq<u8>)> {
    if tag_open(Command::Put).is_prefix_of(s) {
        Some((Command::Put, s.skip(tag_open(Command::Put).len() as int)))
    } else if tag_open(Command::Remove).is_prefix_of(s) {
        Some((Command::Remove, s.skip(tag_open(Command::Remove).len() as int)))
    } else if tag_open(Command::Seek).is_prefix_of(s) {
        Some((Command::Seek, s.skip(tag_open(Command::Seek).len() as int)))
    } else {
        None
    }
}

/// The command and the two byte strings that a line holds.
#[verifier::opaque]
pub open spec fn parse_frame(line: Seq<u8>) -> Option<(Command, Seq<u8>, Seq<u8>)> {
    if !head().is_prefix_of(line) {
        None
    } else {
        match parse_tag(line.skip(head().len() as int)) {
            None => None,
            Some((cmd, s1)) => match unescape(s1) {
                None => None,
                Some((key, s2)) => {
                    if !value_open().is_prefix_of(s2) {
                        None
                    } else {
                        match unescape(s2.skip(value_open().len() as int)) {
                            None => None,
                            Some((value, s3)) => {
                                if s3 == tail() {
                                    Some((cmd, key, value))
                                } else {
                                    None
                                }
                            },
                        }
                    }
                },
            },
        }
    }
}

/// The record that a line holds, if it is the line of a record.
pub open spec fn parse_line(line: Seq<u8>) -> Option<RecordView> {
    match parse_frame(line) {
        None => None,
        Some((cmd, key, value)) => {
            if valid_utf8(key) && valid_utf8(value) {
                Some(RecordView { cmd, key: decode_utf8(key), value: decode_utf8(value) })
            } else {
                None
            }
        },
    }
}

// ---------------------------------------------------------------------------
// Facts about the text
// ---------------------------------------------------------------------------

/// A sequence is a prefix of itself extended, and skipping it leaves the
/// extension.
pub proof fn lemma_concat_prefix(a: Seq<u8>, b: Seq<u8>)
    ensures
        a.is_prefix_of(a + b),
        (a + b).skip(a.len() as int) == b,
        (a + b).take(a.len() as int) == a,
{
    assert((a + b).subrange(0, a.len() as int) =~= a);
    assert((a + b).skip(a.len() as int) =~= b);
    assert((a + b).take(a.len() as int) =~= a);
}

/// A sequence with a given prefix is that prefix followed by the rest.
pub proof fn lemma_prefix_split(p: Seq<u8>, s: Seq<u8>)
    requires
        p.is_prefix_of(s),
    ensures
        s == p + s.skip(p.len() as int),
{
    assert(s =~= p + s.skip(p.len() as int));
}

/// The lengths of the fixed pieces of a line.
pub proof fn lemma_piece_lengths()
    ensures
        head().len() == 8,
        key_open().len() == 9,
        value_open().len() == 10,
        tail().len() == 2,
        tag(Command::Put).len() == 3,
        tag(Command::Remove).len() == 6,
        tag(Command::Seek).len() == 4,
{
    reveal(head);
    reveal(key_open);
    reveal(value_open);
    reveal(tail);
    reveal(tag);
}

/// No fixed piece holds a newline, but for the last byte of the tail.
pub proof fn lemma_pieces_no_newline(cmd: Command)
    ensures
        forall|i: int| 0 <= i < head().len() ==> head()[i] != newline(),
        forall|i: int| 0 <= i < key_open().len() ==> key_open()[i] != newline(),
        forall|i: int| 0 <= i < value_open().len() ==> value_open()[i] != newline(),
        forall|i: int| 0 <= i < tag(cmd).len() ==> tag(cmd)[i] != newline(),
        tail()[0] != newline(),
        tail()[1] == newline(),
{
    reveal(head);
    reveal(key_open);
    reveal(value_open);
    reveal(tail);
    reveal(tag);
}

/// Only a command's own name, with the opening of the key, starts the text
/// that follows the head of its line.
pub proof fn lemma_tag_open_distinct(c1: Command, c2: Command, rest: Seq<u8>)
    requires
        tag_open(c1).is_prefix_of(tag_open(c2) + rest),
    ensures
        c1 == c2,
{
    reveal(tag);
    reveal(key_open);
    let s = tag_open(c2) + rest;
    let p = tag_open(c1);
    assert(p =~= s.subrange(0, p.len() as int));
    assert(p[0] == s[0]);
    assert(p[2] == s[2]);
    assert(s[0] == tag_open(c2)[0]);
    assert(s[2] == tag_open(c2)[2]);
}

/// The text of one byte is one to six bytes long, none of them a control
/// byte, and starts with a quote for no byte.
pub proof fn lemma_escape_byte_shape(b: u8)
    ensures
        1 <= escape_byte(b).len() <= 6,
        forall|i: int| 0 <= i < escape_byte(b).len() ==> escape_byte(b)[i] >= 0x20,
        escape_byte(b)[0] != 0x22,
{
    reveal(escape_byte);
    if b < 0x20 && !has_short_escape(b) {
        assert(hex_digit(b / 16) >= 0x30);
        assert(hex_digit(b % 16) >= 0x30);
    }
}

/// Reading the text of one byte gives the byte back.
pub proof fn lemma_chunk_of_escape_byte(b: u8, t: Seq<u8>)
    ensures
        chunk(escape_byte(b) + t) == Some((b, escape_byte(b).len() as int)),
{
    reveal(escape_byte);
    reveal(chunk);
    let s = escape_byte(b) + t;
    if b < 0x20 && !has_short_escape(b) {
        assert(s[0] == 0x5c && s[1] == 0x75 && s[2] == 0x30 && s[3] == 0x30);
        assert(s[4] == hex_digit(b / 16) && s[5] == hex_digit(b % 16));
        assert(hex_value(s[4]) == Some((b / 16) as u8));
        assert(hex_value(s[5]) == Some((b % 16) as u8));
        assert(((b / 16) * 16 + (b % 16)) as u8 == b);
    } else if b == 0x22 || b == 0x5c || has_short_escape(b) {
        assert(s[0] == 0x5c);
        assert(s.len() >= 2);
        assert(s[1] == escape_byte(b)[1]);
    } else {
        assert(s[0] == b);
    }
}

/// What `chunk` reads is the text of the byte it returns.
pub proof fn lemma_chunk_sound(s: Seq<u8>)
    requires
        chunk(s) is Some,
    ensures
        1 <= chunk(s).unwrap().1 <= s.len(),
        s.take(chunk(s).unwrap().1) == escape_byte(chunk(s).unwrap().0),
{
    reveal(escape_byte);
    reveal(chunk);
    let (b, n) = chunk(s).unwrap();
    if s[0] == 0x5c {
        if s[1] == 0x75 {
            let hi = hex_value(s[4]).unwrap();
            let lo = hex_value(s[5]).unwrap();
            assert(b == hi * 16 + lo);
            assert(b / 16 == hi && b % 16 == lo);
            assert(hex_digit(hi) == s[4]);
            assert(hex_digit(lo) == s[5]);
            assert(s.take(6) =~= escape_byte(b));
        } else {
            assert(s.take(2) =~= escape_byte(b));
        }
    } else {
        assert(s.take(1) =~= escape_byte(b));
    }
}

/// Escaping distributes over concatenation.
pub proof fn lemma_escape_concat(a: Seq<u8>, b: Seq<u8>)
    ensures
        escape(a + b) == escape(a) + escape(b),
    decreases a.len(),
{
    if a.len() == 0 {
        assert(a + b =~= b);
        assert(escape(a) + escape(b) =~= escape(b));
    } else {
        assert((a + b)[0] == a[0]);
        assert((a + b).skip(1) =~= a.skip(1) + b);
        lemma_escape_concat(a.skip(1), b);
        assert(escape_byte(a[0]) + (escape(a.skip(1)) + escape(b)) =~= (escape_byte(a[0])
            + escape(a.skip(1))) + escape(b));
    }
}

/// Escaping a string extended by one byte.
pub proof fn lemma_escape_push(a: Seq<u8>, b: u8)
    ensures
        escape(a.push(b)) == escape(a) + escape_byte(b),
{
    lemma_escape_concat(a, seq![b]);
    assert(a.push(b) =~= a + seq![b]);
    let one = seq![b];
    assert(one[0] == b);
    assert(one.skip(1) =~= Seq::<u8>::empty());
    assert(escape(one.skip(1)) =~= Seq::<u8>::empty());
    assert(escape(one) =~= escape_byte(b));
}

/// Escaped text holds no control byte, so no newline.
pub proof fn lemma_escape_no_control(s: Seq<u8>, i: int)
    requires
        0 <= i < escape(s).len(),
    ensures
        escape(s)[i] >= 0x20,
    decreases s.len(),
{
    if s.len() > 0 {
        let e = escape_byte(s[0]);
        lemma_escape_byte_shape(s[0]);
        if i < e.len() {
            assert(escape(s)[i] == e[i]);
        } else {
            lemma_escape_no_control(s.skip(1), i - e.len());
            assert(escape(s)[i] == escape(s.skip(1))[i - e.len()]);
        }
    }
}

/// Reading escaped text that is closed by a quote gives the string back,
/// and the text after the quote.
pub proof fn lemma_unescape_of_escape(k: Seq<u8>, t: Seq<u8>)
    ensures
        unescape(escape(k) + seq![quote()] + t) == Some((k, t)),
    decreases k.len(),
{
    let s = escape(k) + seq![quote()] + t;
    if k.len() == 0 {
        assert(s[0] == 0x22);
        assert(s.skip(1) =~= t);
    } else {
        let e = escape_byte(k[0]);
        let rest = escape(k.skip(1)) + seq![quote()] + t;
        assert(s =~= e + rest);
        lemma_escape_byte_shape(k[0]);
        lemma_chunk_of_escape_byte(k[0], rest);
        lemma_unescape_of_escape(k.skip(1), t);
        assert(s.skip(e.len() as int) =~= rest);
        assert(s[0] == e[0]);
        assert(seq![k[0]] + k.skip(1) =~= k);
    }
}

/// What `unescape` reads is the escaped text of what it returns, closed by
/// a quote.
pub proof fn lemma_unescape_sound(s: Seq<u8>)
    requires
        unescape(s) is Some,
    ensures
        s == escape(unescape(s).unwrap().0) + seq![quote()] + unescape(s).unwrap().1,
    decreases s.len(),
{
    let (k, t) = unescape(s).unwrap();
    if s[0] == 0x22 {
        assert(s =~= escape(k) + seq![quote()] + t);
    } else {
        let (b, n) = chunk(s).unwrap();
        lemma_chunk_sound(s);
        lemma_unescape_sound(s.skip(n));
        let (d, rest) = unescape(s.skip(n)).unwrap();
        assert(k == seq![b] + d);
        assert(k[0] == b);
        assert(k.skip(1) =~= d);
        assert(escape(k) == escape_byte(b) + escape(d));
        assert(s =~= s.take(n) + s.skip(n));
        assert(s.skip(n) == escape(d) + seq![quote()] + t);
        assert(s =~= escape(k) + seq![quote()] + t);
    }
}

/// Reading the text after the head of a line gives the command back.
pub proof fn lemma_parse_tag_of_tag_open(cmd: Command, rest: Seq<u8>)
    ensures
        parse_tag(tag_open(cmd) + rest) == Some((cmd, rest)),
{
    let s = tag_open(cmd) + rest;
    lemma_concat_prefix(tag_open(cmd), rest);
    if tag_open(Command::Put).is_prefix_of(s) {
        lemma_tag_open_distinct(Command::Put, cmd, rest);
    } else if tag_open(Command::Remove).is_prefix_of(s) {
        lemma_tag_open_distinct(Command::Remove, cmd, rest);
    } else if tag_open(Command::Seek).is_prefix_of(s) {
        lemma_tag_open_distinct(Command::Seek, cmd, rest);
    }
}

/// A line read back gives the command and the byte strings it was made of.
pub proof fn lemma_parse_frame_of_frame(cmd: Command, key: Seq<u8>, value: Seq<u8>)
    ensures
        parse_frame(frame(cmd, key, value)) == Some((cmd, key, value)),
{
    reveal(frame);
    reveal(parse_frame);
    let line = frame(cmd, key, value);
    lemma_concat_prefix(head(), tag_open(cmd) + after_key(key, value));
    lemma_parse_tag_of_tag_open(cmd, after_key(key, value));
    lemma_unescape_of_escape(key, value_open() + after_value(value));
    lemma_concat_prefix(value_open(), after_value(value));
    lemma_unescape_of_escape(value, tail());
}

/// A line that reads as a command and two byte strings is their line.
pub proof fn lemma_parse_frame_sound(line: Seq<u8>)
    requires
        parse_frame(line) is Some,
    ensures
        line == frame(
            parse_frame(line).unwrap().0,
            parse_frame(line).unwrap().1,
            parse_frame(line).unwrap().2,
        ),
{
    reveal(frame);
    reveal(parse_frame);
    let (cmd, key, value) = parse_frame(line).unwrap();
    let a = line.skip(head().len() as int);
    let (c1, s1) = parse_tag(a).unwrap();
    let (k, s2) = unescape(s1).unwrap();
    let (v, s3) = unescape(s2.skip(value_open().len() as int)).unwrap();
    lemma_unescape_sound(s1);
    lemma_unescape_sound(s2.skip(value_open().len() as int));
    lemma_prefix_split(head(), line);
    lemma_prefix_split(tag_open(cmd), a);
    lemma_prefix_split(value_open(), s2);
}

/// Reading the line of a record gives the record back.
pub proof fn lemma_parse_line_of_record_line(r: RecordView)
    ensures
        parse_line(record_line(r)) == Some(r),
{
    lemma_parse_frame_of_frame(r.cmd, encode_utf8(r.key), encode_utf8(r.value));
    encode_utf8_valid_utf8(r.key);
    encode_utf8_valid_utf8(r.value);
    encode_utf8_decode_utf8(r.key);
    encode_utf8_decode_utf8(r.value);
}

/// A line that reads as a record is the line of that record.
pub proof fn lemma_parse_line_sound(line: Seq<u8>)
    requires
        parse_line(line) is Some,
    ensures
        line == record_line(parse_line(line).unwrap()),
{
    lemma_parse_frame_sound(line);
    let (cmd, key, value) = parse_frame(line).unwrap();
    decode_utf8_encode_utf8(key);
    decode_utf8_encode_utf8(value);
}

/// Two records with the same line are the same record.
pub proof fn lemma_record_line_injective(a: RecordView, b: RecordView)
    requires
        record_line(a) == record_line(b),
    ensures
        a == b,
{
    lemma_parse_line_of_record_line(a);
    lemma_parse_line_of_record_line(b);
}

/// A line is the line of a record exactly when it reads as one.
pub proof fn lemma_is_record_line(line: Seq<u8>)
    ensures
        is_record_line(line) <==> parse_line(line) is Some,
{
    if parse_line(line) is Some {
        lemma_parse_line_sound(line);
        assert(line == record_line(parse_line(line).unwrap()));
    }
    if is_record_line(line) {
        let r = choose|r: RecordView| line == #[trigger] record_line(r);
        lemma_parse_line_of_record_line(r);
    }
}

/// The line of a record is not empty.
pub proof fn lemma_record_line_nonempty(r: RecordView)
    ensures
        record_line(r).len() >= 2,
{
    reveal(frame);
    lemma_piece_lengths();
}

/// The only newline of a record's line is its last byte.
pub proof fn lemma_record_line_newline(r: RecordView, i: int)
    requires
        0 <= i < record_line(r).len(),
    ensures
        record_line(r).len() >= 2,
        record_line(r)[i] == newline() <==> i == record_line(r).len() - 1,
{
    reveal(frame);
    let key = encode_utf8(r.key);
    let value = encode_utf8(r.value);
    let line = record_line(r);
    lemma_piece_lengths();
    lemma_pieces_no_newline(r.cmd);
    let n0 = head().len() as int;
    let n1 = n0 + tag(r.cmd).len();
    let n2 = n1 + key_open().len();
    let n3 = n2 + escape(key).len();
    let n4 = n3 + 1;
    let n5 = n4 + value_open().len();
    let n6 = n5 + escape(value).len();
    assert(line.len() == n6 + 3);
    if i < n0 {
        assert(line[i] == head()[i]);
    } else if i < n1 {
        assert(line[i] == tag(r.cmd)[i - n0]);
    } else if i < n2 {
        assert(line[i] == key_open()[i - n1]);
    } else if i < n3 {
        assert(line[i] == escape(key)[i - n2]);
        lemma_escape_no_control(key, i - n2);
    } else if i < n4 {
        assert(line[i] == quote());
    } else if i < n5 {
        assert(line[i] == value_open()[i - n4]);
    } else if i < n6 {
        assert(line[i] == escape(value)[i - n5]);
        lemma_escape_no_control(value, i - n5);
    } else if i == n6 {
        assert(line[i] == quote());
    } else {
        assert(line[i] == tail()[i - n6 - 1]);
    }
}

// ---------------------------------------------------------------------------
// Writing and reading records
// ---------------------------------------------------------------------------

/// `String::from_utf8` of the standard library: the string whose UTF-8
/// encoding the bytes are, or nothing where they are not valid UTF-8.
#[verifier::external_body]
pub(crate) fn string_from_utf8(bytes: Vec<u8>) -> (r: Option<String>)
    ensures
        r is Some <==> valid_utf8(bytes@),
        r is Some ==> r.unwrap()@ == decode_utf8(bytes@),
{
    String::from_utf8(bytes).ok()
}

fn head_bytes() -> (v: Vec<u8>)
    ensures
        v@ == head(),
{
    proof {
        reveal(head);
    }
    let v = vec![0x7bu8, 0x22u8, 0x63u8, 0x6du8, 0x64u8, 0x22u8, 0x3au8, 0x22u8];
    assert(v@ =~= head());
    v
}

fn key_open_bytes() -> (v: Vec<u8>)
    ensures
        v@ == key_open(),
{
    proof {
        reveal(key_open);
    }
    let v = vec![0x22u8, 0x2cu8, 0x22u8, 0x6bu8, 0x65u8, 0x79u8, 0x22u8, 0x3au8, 0x22u8];
    assert(v@ =~= key_open());
    v
}

fn value_open_bytes() -> (v: Vec<u8>)
    ensures
        v@ == value_open(),
{
    proof {
        reveal(value_open);
    }
    let v = vec![0x2cu8, 0x22u8, 0x76u8, 0x61u8, 0x6cu8, 0x75u8, 0x65u8, 0x22u8, 0x3au8, 0x22u8];
    assert(v@ =~= value_open());
    v
}

fn tail_bytes() -> (v: Vec<u8>)
    ensures
        v@ == tail(),
{
    proof {
        reveal(tail);
    }
    let v = vec![0x7du8, 0x0au8];
    assert(v@ =~= tail());
    v
}

fn tag_bytes(cmd: Command) -> (v: Vec<u8>)
    ensures
        v@ == tag(cmd),
{
    proof {
        reveal(tag);
    }
    match cmd {
        Command::Put => {
            let v = vec![0x53u8, 0x65u8, 0x74u8];
            assert(v@ =~= tag(cmd));
            v
        },
        Command::Remove => {
            let v = vec![0x52u8, 0x65u8, 0x6du8, 0x6fu8, 0x76u8, 0x65u8];
            assert(v@ =~= tag(cmd));
            v
        },
        Command::Seek => {
            let v = vec![0x53u8, 0x65u8, 0x65u8, 0x6bu8];
            assert(v@ =~= tag(cmd));
            v
        },
    }
}

fn hex_digit_of(d: u8) -> (c: u8)
    requires
        d < 16,
    ensures
        c == hex_digit(d),
{
    if d < 10 {
        0x30 + d
    } else {
        0x57 + d
    }
}

/// Appends the text of one byte.
fn escape_byte_into(out: &mut Vec<u8>, b: u8)
    ensures
        final(out)@ == old(out)@ + escape_byte(b),
{
    proof {
        reveal(escape_byte);
    }
    let ghost before = out@;
    if b == 0x22 || b == 0x5c {
        out.push(0x5c);
        out.push(b);
    } else if b == 0x08 {
        out.push(0x5c);
        out.push(0x62);
    } else if b == 0x09 {
        out.push(0x5c);
        out.push(0x74);
    } else if b == 0x0a {
        out.push(0x5c);
        out.push(0x6e);
    } else if b == 0x0c {
        out.push(0x5c);
        out.push(0x66);
    } else if b == 0x0d {
        out.push(0x5c);
        out.push(0x72);
    } else if b < 0x20 {
        out.push(0x5c);
        out.push(0x75);
        out.push(0x30);
        out.push(0x30);
        out.push(hex_digit_of(b / 16));
        out.push(hex_digit_of(b % 16));
    } else {
        out.push(b);
    }
    assert(out@ =~= before + escape_byte(b));
}

/// Appends the escaped text of a byte string.
fn escape_into(out: &mut Vec<u8>, s: &[u8])
    ensures
        final(out)@ == old(out)@ + escape(s@),
{
    let ghost before = out@;
    let mut i: usize = 0;
    assert(s@.take(0) =~= Seq::<u8>::empty());
    assert(out@ =~= before + escape(s@.take(0)));
    while i < s.len()
        invariant
            i <= s.len(),
            out@ == before + escape(s@.take(i as int)),
        decreases s.len() - i,
    {
        escape_byte_into(out, s[i]);
        proof {
            lemma_escape_push(s@.take(i as int), s@[i as int]);
            assert(s@.take(i + 1) =~= s@.take(i as int).push(s@[i as int]));
            assert(out@ =~= before + escape(s@.take(i + 1)));
        }
        i = i + 1;
    }
    assert(s@.take(i as int) =~= s@);
}

/// The line of a command and two strings.
pub fn encode_line(cmd: Command, key: &str, value: &str) -> (line: Vec<u8>)
    ensures
        line@ == record_line(RecordView { cmd, key: key@, value: value@ }),
{
    let mut out = head_bytes();
    let t = tag_bytes(cmd);
    out.extend_from_slice(t.as_slice());
    let ko = key_open_bytes();
    out.extend_from_slice(ko.as_slice());
    escape_into(&mut out, key.as_bytes());
    out.push(0x22);
    let vo = value_open_bytes();
    out.extend_from_slice(vo.as_slice());
    escape_into(&mut out, value.as_bytes());
    out.push(0x22);
    let tl = tail_bytes();
    out.extend_from_slice(tl.as_slice());
    proof {
        reveal(frame);
    }
    assert(out@ =~= frame(cmd, encode_utf8(key@), encode_utf8(value@)));
    out
}

/// The line of a record, newline included.
pub fn encode_record(r: &Record) -> (line: Vec<u8>)
    ensures
        line@ == record_line(r@),
{
    encode_line(r.cmd, r.key.as_str(), r.value.as_str())
}

/// Whether `p` stands in `x` at `pos`.
fn has_prefix_at(x: &[u8], pos: usize, p: &[u8]) -> (b: bool)
    requires
        pos <= x.len(),
    ensures
        b == p@.is_prefix_of(x@.skip(pos as int)),
{
    if p.len() > x.len() - pos {
        return false;
    }
    let mut i: usize = 0;
    while i < p.len()
        invariant
            i <= p.len(),
            pos + p.len() <= x.len(),
            forall|j: int| 0 <= j < i ==> p@[j] == x@[pos + j],
        decreases p.len() - i,
    {
        if p[i] != x[pos + i] {
            proof {
                let sub = x@.skip(pos as int).subrange(0, p@.len() as int);
                assert(sub[i as int] == x@[pos + i]);
            }
            return false;
        }
        i = i + 1;
    }
    assert(p@ =~= x@.skip(pos as int).subrange(0, p@.len() as int));
    true
}

/// What `unescape` gives with `out` put before the bytes it reads.
pub open spec fn prepend(out: Seq<u8>, r: Option<(Seq<u8>, Seq<u8>)>) -> Option<
    (Seq<u8>, Seq<u8>),
> {
    match r {
        None => None,
        Some((d, rest)) => Some((out + d, rest)),
    }
}

/// Reads one escaped byte at `i`.
fn chunk_at(x: &[u8], i: usize) -> (r: Option<(u8, usize)>)
    requires
        i < x.len(),
    ensures
        match r {
            Some((b, n)) => chunk(x@.skip(i as int)) == Some((b, n as int)) && 1 <= n
                && i + n <= x.len(),
            None => chunk(x@.skip(i as int)) is None,
        },
{
    proof {
        reveal(chunk);
    }
    let ghost s = x@.skip(i as int);
    let c: u8 = x[i];
    assert(s[0] == c);
    if c == 0x5c {
        if x.len() - i < 2 {
            return None;
        }
        let e: u8 = x[i + 1];
        assert(s[1] == e);
        if e == 0x22 {
            Some((0x22u8, 2usize))
        } else if e == 0x5c {
            Some((0x5cu8, 2usize))
        } else if e == 0x62 {
            Some((0x08u8, 2usize))
        } else if e == 0x74 {
            Some((0x09u8, 2usize))
        } else if e == 0x6e {
            Some((0x0au8, 2usize))
        } else if e == 0x66 {
            Some((0x0cu8, 2usize))
        } else if e == 0x72 {
            Some((0x0du8, 2usize))
        } else if e == 0x75 && x.len() - i >= 6 && x[i + 2] == 0x30 && x[i + 3] == 0x30 {
            assert(s[2] == x@[i + 2] && s[3] == x@[i + 3]);
            assert(s[4] == x@[i + 4] && s[5] == x@[i + 5]);
            let h: u8 = x[i + 4];
            let l: u8 = x[i + 5];
            let hi: u8 = if h == 0x30 {
                0
            } else if h == 0x31 {
                1
            } else {
                return None;
            };
            let lo: u8 = if 0x30 <= l && l <= 0x39 {
                l - 0x30
            } else if 0x61 <= l && l <= 0x66 {
                l - 0x57
            } else {
                return None;
            };
            let b: u8 = hi * 16 + lo;
            if b == 0x08 || b == 0x09 || b == 0x0a || b == 0x0c || b == 0x0d {
                None
            } else {
                Some((b, 6usize))
            }
        } else {
            proof {
                if e == 0x75 && x.len() - i >= 6 {
                    assert(s[2] == x@[i + 2]);
                    assert(s[3] == x@[i + 3]);
                }
            }
            None
        }
    } else if c < 0x20 || c == 0x22 {
        None
    } else {
        Some((c, 1usize))
    }
}

/// Reads an escaped byte string that starts at `start`: the bytes it stands
/// for and the place after the quote that closes it.
fn unescape_at(x: &[u8], start: usize) -> (r: Option<(Vec<u8>, usize)>)
    requires
        start <= x.len(),
    ensures
        match r {
            Some((d, next)) => start < next <= x.len() && unescape(x@.skip(start as int))
                == Some((d@, x@.skip(next as int))),
            None => unescape(x@.skip(start as int)) is None,
        },
{
    let mut out: Vec<u8> = Vec::new();
    let mut i: usize = start;
    let ghost goal = unescape(x@.skip(start as int));
    proof {
        let r = unescape(x@.skip(start as int));
        match r {
            None => {},
            Some((d, rest)) => {
                assert(out@ + d =~= d);
            },
        }
    }
    while i < x.len()
        invariant
            start <= i <= x.len(),
            goal == unescape(x@.skip(start as int)),
            goal == prepend(out@, unescape(x@.skip(i as int))),
        decreases x.len() - i,
    {
        let ghost s = x@.skip(i as int);
        assert(s[0] == x@[i as int]);
        if x[i] == 0x22 {
            proof {
                assert(s.skip(1) =~= x@.skip(i + 1));
                assert(out@ + Seq::<u8>::empty() =~= out@);
            }
            return Some((out, i + 1));
        }
        match chunk_at(x, i) {
            None => {
                return None;
            },
            Some((b, n)) => {
                proof {
                    assert(s.skip(n as int) =~= x@.skip(i + n));
                    match unescape(x@.skip(i + n)) {
                        None => {},
                        Some((d, rest)) => {
                            assert(out@ + (seq![b] + d) =~= out@.push(b) + d);
                        },
                    }
                }
                out.push(b);
                i = i + n;
            },
        }
    }
    None
}

/// Reads the command's name and the opening of the key at `pos`.
fn parse_tag_at(x: &[u8], pos: usize) -> (r: Option<(Command, usize)>)
    requires
        pos <= x.len(),
    ensures
        match r {
            Some((cmd, next)) => pos <= next <= x.len() && parse_tag(x@.skip(pos as int))
                == Some((cmd, x@.skip(next as int))),
            None => parse_tag(x@.skip(pos as int)) is None,
        },
{
    proof {
        lemma_piece_lengths();
    }
    let ko = key_open_bytes();
    let mut put = tag_bytes(Command::Put);
    put.extend_from_slice(ko.as_slice());
    let mut remove = tag_bytes(Command::Remove);
    remove.extend_from_slice(ko.as_slice());
    let mut seek = tag_bytes(Command::Seek);
    seek.extend_from_slice(ko.as_slice());
    let ghost s = x@.skip(pos as int);
    if has_prefix_at(x, pos, put.as_slice()) {
        assert(s.skip(12) =~= x@.skip(pos + 12));
        Some((Command::Put, pos + 12))
    } else if has_prefix_at(x, pos, remove.as_slice()) {
        assert(s.skip(15) =~= x@.skip(pos + 15));
        Some((Command::Remove, pos + 15))
    } else if has_prefix_at(x, pos, seek.as_slice()) {
        assert(s.skip(13) =~= x@.skip(pos + 13));
        Some((Command::Seek, pos + 13))
    } else {
        None
    }
}

/// Reads the command and the two byte strings of a line.
fn decode_frame(line: &[u8]) -> (r: Option<(Command, Vec<u8>, Vec<u8>)>)
    ensures
        match r {
            Some((cmd, key, value)) => parse_frame(line@) == Some((cmd, key@, value@)),
            None => parse_frame(line@) is None,
        },
{
    proof {
        reveal(parse_frame);
        lemma_piece_lengths();
    }
    assert(line@.skip(0) =~= line@);
    let hd = head_bytes();
    if !has_prefix_at(line, 0, hd.as_slice()) {
        return None;
    }
    let (cmd, after_tag) = match parse_tag_at(line, 8) {
        None => {
            return None;
        },
        Some(found) => found,
    };
    let (key, after_key_at) = match unescape_at(line, after_tag) {
        None => {
            return None;
        },
        Some(found) => found,
    };
    let vo = value_open_bytes();
    if !has_prefix_at(line, after_key_at, vo.as_slice()) {
        return None;
    }
    assert(line@.skip(after_key_at as int).skip(10) =~= line@.skip(after_key_at + 10));
    let (value, after_value_at) = match unescape_at(line, after_key_at + 10) {
        None => {
            return None;
        },
        Some(found) => found,
    };
    let tl = tail_bytes();
    if line.len() - after_value_at == 2 && has_prefix_at(line, after_value_at, tl.as_slice()) {
        assert(line@.skip(after_value_at as int) =~= tail());
        Some((cmd, key, value))
    } else {
        assert(line@.skip(after_value_at as int) != tail()) by {
            if line@.skip(after_value_at as int) == tail() {
                assert(tail().is_prefix_of(line@.skip(after_value_at as int))) by {
                    assert(tail() =~= tail().subrange(0, tail().len() as int));
                }
            }
        }
        None
    }
}

/// The record that a line holds. Fails with `Corrupt` on every line that is
/// not the line of a record.
pub fn decode_record(line: &[u8]) -> (r: Result<Record, KVSError>)
    ensures
        match r {
            Ok(rec) => line@ == record_line(rec@),
            Err(e) => e == KVSError::Corrupt && !is_record_line(line@),
        },
{
    proof {
        lemma_is_record_line(line@);
        if parse_line(line@) is Some {
            lemma_parse_line_sound(line@);
        }
    }
    let (cmd, key, value) = match decode_frame(line) {
        None => {
            return Err(KVSError::Corrupt);
        },
        Some(found) => found,
    };
    let key = match string_from_utf8(key) {
        None => {
            return Err(KVSError::Corrupt);
        },
        Some(text) => text,
    };
    let value = match string_from_utf8(value) {
        None => {
            return Err(KVSError::Corrupt);
        },
        Some(text) => text,
    };
    Ok(Record { cmd, key, value })
}

} // verus!
