use kvs::engines::kv::codec::{decode_record, encode_line, encode_record, Command, Record};
use kvs::engines::kv::reader::{BufReaderWithPos, LogReader, VLogReader};
use kvs::engines::kv::writer::{BufWriterWithPos, LogWriter, VLogWriter};
use kvs::KVSError;

fn record(cmd: Command, key: &str, value: &str) -> Record {
    Record { cmd, key: key.to_string(), value: value.to_string() }
}

#[test]
fn encode_set_record() {
    let line = encode_record(&record(Command::Put, "k", "v"));
    assert_eq!(line, b"{\"cmd\":\"Set\",\"key\":\"k\",\"value\":\"v\"}\n".to_vec());
}

#[test]
fn encode_remove_record() {
    let line = encode_record(&record(Command::Remove, "key1", ""));
    assert_eq!(line, b"{\"cmd\":\"Remove\",\"key\":\"key1\",\"value\":\"\"}\n".to_vec());
}

#[test]
fn encode_seek_record() {
    let line = encode_line(Command::Seek, "a", "b");
    assert_eq!(line, b"{\"cmd\":\"Seek\",\"key\":\"a\",\"value\":\"b\"}\n".to_vec());
}

#[test]
fn encode_escapes_quote_backslash_and_control_bytes() {
    let line = encode_line(Command::Put, "a\"b\\c", "\u{8}\t\n\u{c}\r\u{0}\u{1f}\u{7f}");
    let expected =
        b"{\"cmd\":\"Set\",\"key\":\"a\\\"b\\\\c\",\"value\":\"\\b\\t\\n\\f\\r\\u0000\\u001f\x7f\"}\n";
    assert_eq!(line, expected.to_vec());
}

#[test]
fn encode_keeps_bytes_above_ascii() {
    let line = encode_line(Command::Put, "\u{e9}", "\u{1f600}");
    let mut expected = b"{\"cmd\":\"Set\",\"key\":\"".to_vec();
    expected.extend_from_slice("\u{e9}".as_bytes());
    expected.extend_from_slice(b"\",\"value\":\"");
    expected.extend_from_slice("\u{1f600}".as_bytes());
    expected.extend_from_slice(b"\"}\n");
    assert_eq!(line, expected);
}

#[test]
fn decode_gives_the_record_back() {
    let cases = vec![
        record(Command::Put, "k", "v"),
        record(Command::Remove, "k", ""),
        record(Command::Seek, "k", "v"),
        record(Command::Put, "", ""),
        record(Command::Put, "a\"b\\c\n", "\u{0}\u{1}\u{8}\u{9}\u{a}\u{b}\u{c}\u{d}\u{e}\u{1f} \u{7f}"),
        record(Command::Put, "\u{e9}\u{4e2d}", "\u{1f600}\\u0041"),
    ];
    for r in cases.iter() {
        let line = encode_record(r);
        let back = decode_record(&line).unwrap();
        assert_eq!(back.cmd, r.cmd);
        assert_eq!(back.key, r.key);
        assert_eq!(back.value, r.value);
    }
}

#[test]
fn decode_set_line() {
    let r = decode_record(b"{\"cmd\":\"Set\",\"key\":\"k\",\"value\":\"v\"}\n").unwrap();
    assert_eq!(r.cmd, Command::Put);
    assert_eq!(r.key, "k");
    assert_eq!(r.value, "v");
}

#[test]
fn decode_rejects_what_encoding_never_writes() {
    let bad: Vec<&[u8]> = vec![
        b"",
        b"\n",
        b"{}\n",
        b"{\"cmd\":\"Set\",\"key\":\"k\",\"value\":\"v\"}",
        b"{\"cmd\":\"Set\",\"key\":\"k\",\"value\":\"v\"}\n\n",
        b"{\"cmd\":\"Set\",\"key\":\"k\",\"value\":\"v\"} \n",
        b" {\"cmd\":\"Set\",\"key\":\"k\",\"value\":\"v\"}\n",
        b"{\"cmd\": \"Set\",\"key\":\"k\",\"value\":\"v\"}\n",
        b"{\"cmd\":\"Get\",\"key\":\"k\",\"value\":\"v\"}\n",
        b"{\"cmd\":\"set\",\"key\":\"k\",\"value\":\"v\"}\n",
        b"{\"key\":\"k\",\"cmd\":\"Set\",\"value\":\"v\"}\n",
        b"{\"cmd\":\"Set\",\"key\":\"k\"}\n",
        b"{\"cmd\":\"Set\",\"key\":\"k\",\"value\":\"v\n",
        b"{\"cmd\":\"Set\",\"key\":\"k\\\",\"value\":\"v\"}\n",
        b"{\"cmd\":\"Set\",\"key\":\"\\u0041\",\"value\":\"v\"}\n",
        b"{\"cmd\":\"Set\",\"key\":\"\\u000a\",\"value\":\"v\"}\n",
        b"{\"cmd\":\"Set\",\"key\":\"\\u001F\",\"value\":\"v\"}\n",
        b"{\"cmd\":\"Set\",\"key\":\"\\/\",\"value\":\"v\"}\n",
        b"{\"cmd\":\"Set\",\"key\":\"\\x\",\"value\":\"v\"}\n",
        b"{\"cmd\":\"Set\",\"key\":\"a\tb\",\"value\":\"v\"}\n",
        b"{\"cmd\":\"Set\",\"key\":\"k\",\"value\":\"v\"}x\n",
        b"{\"cmd\":\"Set\",\"key\":\"\xff\",\"value\":\"v\"}\n",
        b"{\"cmd\":\"Set\",\"key\":\"k\",\"value\":\"\xc3\"}\n",
    ];
    for line in bad {
        assert!(matches!(decode_record(line), Err(KVSError::Corrupt)), "{:?}", line);
    }
}

#[test]
fn decode_accepts_lower_case_control_escapes() {
    let r = decode_record(b"{\"cmd\":\"Set\",\"key\":\"\\u001f\\u0000\",\"value\":\"\\n\"}\n").unwrap();
    assert_eq!(r.key, "\u{1f}\u{0}");
    assert_eq!(r.value, "\n");
}

#[test]
fn writer_reports_the_position_of_each_write() {
    let mut w = BufWriterWithPos::new(Vec::new()).unwrap();
    assert_eq!(w.pos(), 0);
    assert_eq!(w.write(b"hello").unwrap(), 5);
    assert_eq!(w.pos(), 5);
    let before = w.pos();
    assert_eq!(w.write(b", world").unwrap(), 7);
    assert_eq!(w.pos(), before + 7);
    w.flush().unwrap();
    assert_eq!(w.pos(), 12);
    assert_eq!(&w.as_slice()[before as usize..], b", world");
    assert_eq!(w.into_inner(), b"hello, world".to_vec());
}

#[test]
fn writer_appends_to_what_is_there() {
    let mut w = BufWriterWithPos::new(b"abc".to_vec()).unwrap();
    assert_eq!(w.pos(), 3);
    assert_eq!(w.write(b"").unwrap(), 0);
    assert_eq!(w.pos(), 3);
    w.write(b"d").unwrap();
    assert_eq!(w.as_slice(), b"abcd");
}

#[test]
fn log_writer_adds_whole_records() {
    let mut w = LogWriter::new(Vec::new()).unwrap();
    w.add_record(b"one\n").unwrap();
    assert_eq!(w.pos(), 4);
    w.emit_physical_record();
    w.add_record(b"two\n").unwrap();
    assert_eq!(w.pos(), 8);
    assert_eq!(w.as_slice(), b"one\ntwo\n");
}

#[test]
fn value_log_writer_adds_whole_values() {
    let mut w = VLogWriter::new(b"xy".to_vec()).unwrap();
    assert_eq!(w.pos(), 2);
    w.add_record(b"value").unwrap();
    w.emit_physical_record();
    assert_eq!(w.pos(), 7);
    assert_eq!(w.as_slice(), b"xyvalue");
}

#[test]
fn reader_reads_lines_at_positions() {
    let bytes = b"first\nsecond\nlast";
    let mut r = BufReaderWithPos::new(bytes).unwrap();
    assert_eq!(r.pos(), 0);
    assert_eq!(r.read_line(), b"first\n".to_vec());
    assert_eq!(r.pos(), 6);
    assert_eq!(r.read_line(), b"second\n".to_vec());
    assert_eq!(r.pos(), 13);
    assert_eq!(r.read_line(), b"last".to_vec());
    assert_eq!(r.pos(), 17);
    assert_eq!(r.read_line(), Vec::<u8>::new());
    assert_eq!(r.pos(), 17);
    assert_eq!(r.seek(6).unwrap(), 6);
    assert_eq!(r.read_line(), b"second\n".to_vec());
    assert_eq!(r.seek(8).unwrap(), 8);
    assert_eq!(r.read_line(), b"cond\n".to_vec());
    assert_eq!(r.seek(100).unwrap(), 100);
    assert_eq!(r.read_line(), Vec::<u8>::new());
    assert_eq!(r.pos(), 100);
}

#[test]
fn reader_reads_exact_counts() {
    let bytes = b"0123456789";
    let mut r = BufReaderWithPos::new(bytes).unwrap();
    r.seek(2).unwrap();
    assert_eq!(r.read_exact(3).unwrap(), b"234".to_vec());
    assert_eq!(r.pos(), 5);
    assert_eq!(r.read_exact(5).unwrap(), b"56789".to_vec());
    assert_eq!(r.read_exact(0).unwrap(), Vec::<u8>::new());
    assert_eq!(r.read_exact(1), Err(KVSError::Corrupt));
    assert_eq!(r.pos(), 10);
    r.seek(11).unwrap();
    assert_eq!(r.read_exact(0), Err(KVSError::Corrupt));
}

#[test]
fn log_reader_reads_the_line_at_an_offset() {
    let bytes = b"a\nbc\n";
    let mut r = LogReader::new(bytes).unwrap();
    assert_eq!(r.read_line_at(2), b"bc\n".to_vec());
    assert_eq!(r.read_line_at(0), b"a\n".to_vec());
}

#[test]
fn value_log_reader_gets_values() {
    let bytes = "abc\u{e9}def".as_bytes();
    let mut r = VLogReader::new(bytes).unwrap();
    assert_eq!(r.get_value(0, 3).unwrap(), "abc");
    assert_eq!(r.get_value(3, 2).unwrap(), "\u{e9}");
    assert_eq!(r.get_value(5, 3).unwrap(), "def");
    assert_eq!(r.get_value(8, 0).unwrap(), "");
    assert_eq!(r.get_value(6, 3), Err(KVSError::Corrupt));
    assert_eq!(r.get_value(3, 1), Err(KVSError::Corrupt));
    assert_eq!(r.get_value(9, 0), Err(KVSError::Corrupt));
}

#[test]
fn error_messages() {
    assert_eq!(KVSError::NoSuchKey.message(), "Non existent key");
    assert_eq!(KVSError::Corrupt.message(), "Not written enough bytes and corrupted file");
    assert_eq!(KVSError::Io.message(), "I/O failure");
    assert_eq!(KVSError::EngineMismatch.message(), "Wrong engine");
}
