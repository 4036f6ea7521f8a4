use kvs::engines::kv::lsm;
use kvs::proto::{
    body_length, client_exit_code, client_reports_missing, decode_frame, encode_frame,
    error_response, get_response, is_error_response, length_prefix, read_length, remove_response,
    set_response,
};
use kvs::{Command, KVSError, KvServer, KvStore, KvsEngine, Record};

fn request(cmd: Command, key: &str, value: &str) -> Record {
    Record { cmd, key: key.to_string(), value: value.to_string() }
}

fn body_of(cmd: &str, key: &str, value: &str) -> Vec<u8> {
    let mut object = serde_json::Map::new();
    object.insert("cmd".to_string(), serde_json::Value::String(cmd.to_string()));
    object.insert("key".to_string(), serde_json::Value::String(key.to_string()));
    object.insert("value".to_string(), serde_json::Value::String(value.to_string()));
    serde_json::to_vec(&serde_json::Value::Object(object)).unwrap()
}

#[test]
fn length_prefix_is_big_endian() {
    assert_eq!(length_prefix(0), vec![0, 0, 0, 0]);
    assert_eq!(length_prefix(39), vec![0, 0, 0, 39]);
    assert_eq!(length_prefix(0x0102_0304), vec![1, 2, 3, 4]);
    assert_eq!(length_prefix(u32::MAX), vec![255, 255, 255, 255]);
    assert_eq!(length_prefix(0x0102_0304), 0x0102_0304u32.to_be_bytes().to_vec());
    assert_eq!(read_length(&[1, 2, 3, 4]), 0x0102_0304);
    assert_eq!(read_length(&[255, 255, 255, 255]), u32::MAX);
    assert_eq!(read_length(&[0, 0, 0, 0]), 0);
}

#[test]
fn body_length_takes_the_prefix_off() {
    assert_eq!(body_length(4), Ok(0));
    assert_eq!(body_length(39), Ok(35));
    assert_eq!(body_length(u32::MAX), Ok(u32::MAX - 4));
    assert_eq!(body_length(3), Err(KVSError::Corrupt));
    assert_eq!(body_length(0), Err(KVSError::Corrupt));
}

#[test]
fn frame_counts_its_own_prefix() {
    let body = body_of("Set", "k", "v");
    assert_eq!(body, b"{\"cmd\":\"Set\",\"key\":\"k\",\"value\":\"v\"}".to_vec());
    let frame = encode_frame(&body).unwrap();
    assert_eq!(frame.len(), body.len() + 4);
    assert_eq!(&frame[..4], &((body.len() as u32 + 4).to_be_bytes())[..]);
    assert_eq!(&frame[..4], &[0, 0, 0, 39]);
    assert_eq!(&frame[4..], &body[..]);
    assert_eq!(decode_frame(&frame), Ok(body));
    assert_eq!(encode_frame(b""), Ok(vec![0, 0, 0, 4]));
    assert_eq!(decode_frame(&[0, 0, 0, 4]), Ok(Vec::new()));
}

#[test]
fn decode_frame_rejects_what_is_not_one_whole_frame() {
    assert_eq!(decode_frame(b""), Err(KVSError::Corrupt));
    assert_eq!(decode_frame(&[0, 0, 0]), Err(KVSError::Corrupt));
    assert_eq!(decode_frame(&[0, 0, 0, 3]), Err(KVSError::Corrupt));
    assert_eq!(decode_frame(&[0, 0, 0, 5]), Err(KVSError::Corrupt));
    assert_eq!(decode_frame(&[0, 0, 0, 5, 1, 2]), Err(KVSError::Corrupt));
    assert_eq!(decode_frame(&[0, 0, 0, 5, 1]), Ok(vec![1]));
}

#[test]
fn response_texts() {
    assert_eq!(set_response(Ok(())), "Successful set operation");
    assert_eq!(remove_response(Ok(())), "Successful remove operation");
    assert_eq!(get_response(Ok(Some("v".to_string()))), "v");
    assert_eq!(get_response(Ok(Some("".to_string()))), "");
    assert_eq!(get_response(Ok(None)), "ERROR: NO such key in storage");
    assert_eq!(remove_response(Err(KVSError::NoSuchKey)), "ERROR: Non existent key");
    assert_eq!(set_response(Err(KVSError::Io)), "ERROR: I/O failure");
    assert_eq!(
        get_response(Err(KVSError::Corrupt)),
        "ERROR: Not written enough bytes and corrupted file"
    );
    assert_eq!(error_response(KVSError::EngineMismatch), "ERROR: Wrong engine");
}

#[test]
fn client_reads_a_response_that_begins_with_error_as_failure() {
    assert!(is_error_response(b"ERROR: NO such key in storage"));
    assert!(is_error_response(b"ERROR"));
    assert!(!is_error_response(b"ERRO"));
    assert!(!is_error_response(b"error: x"));
    assert!(!is_error_response(b"Successful set operation"));
    assert!(!is_error_response(b""));
    assert_eq!(client_exit_code(Command::Put, b"Successful set operation"), 0);
    assert_eq!(client_exit_code(Command::Put, b"ERROR: I/O failure"), 1);
    assert_eq!(client_exit_code(Command::Remove, b"Successful remove operation"), 0);
    assert_eq!(client_exit_code(Command::Remove, b"ERROR: Non existent key"), 1);
    assert_eq!(client_exit_code(Command::Get, b"value"), 0);
    assert_eq!(client_exit_code(Command::Get, b"ERROR: NO such key in storage"), 0);
    assert!(client_reports_missing(Command::Get, b"ERROR: NO such key in storage"));
    assert!(client_reports_missing(Command::Remove, b"ERROR: Non existent key"));
    assert!(!client_reports_missing(Command::Put, b"ERROR: I/O failure"));
    assert!(!client_reports_missing(Command::Get, b"value"));
}

#[test]
fn server_answers_set_get_and_get_of_an_absent_key() {
    let mut store = KvStore::new();
    let frame = encode_frame(&body_of("Set", "k", "v")).unwrap();
    let body = decode_frame(&frame).unwrap();
    let parsed: serde_json::Value = serde_json::from_slice(&body).unwrap();
    assert_eq!(parsed["cmd"].as_str(), Some("Set"));
    let record = request(
        Command::Put,
        parsed["key"].as_str().unwrap(),
        parsed["value"].as_str().unwrap(),
    );
    assert_eq!(KvServer::serve(&mut store, record), "Successful set operation");
    assert_eq!(KvServer::serve(&mut store, request(Command::Get, "k", "")), "v");
    assert_eq!(
        KvServer::serve(&mut store, request(Command::Get, "absent", "")),
        "ERROR: NO such key in storage"
    );
}

#[test]
fn server_answers_remove() {
    let mut store = KvStore::new();
    KvServer::serve(&mut store, request(Command::Put, "k", "v"));
    assert_eq!(
        KvServer::serve(&mut store, request(Command::Remove, "k", "")),
        "Successful remove operation"
    );
    assert_eq!(
        KvServer::serve(&mut store, request(Command::Remove, "k", "")),
        "ERROR: Non existent key"
    );
    assert_eq!(
        KvServer::serve(&mut store, request(Command::Get, "k", "")),
        "ERROR: NO such key in storage"
    );
}

#[test]
fn server_drives_the_leveled_engine_too() {
    let mut store = lsm::KvStore::new();
    assert_eq!(
        KvServer::serve(&mut store, request(Command::Put, "k", "v")),
        "Successful set operation"
    );
    assert_eq!(KvServer::serve(&mut store, request(Command::Get, "k", "")), "v");
    assert_eq!(
        KvServer::serve(&mut store, request(Command::Remove, "k", "")),
        "Successful remove operation"
    );
    assert_eq!(
        KvServer::serve(&mut store, request(Command::Get, "k", "")),
        "ERROR: NO such key in storage"
    );
}

#[test]
fn engines_behind_the_interface() {
    fn exercise<E: KvsEngine>(engine: &mut E) {
        engine.set("a".to_string(), "1".to_string()).unwrap();
        engine.set("b".to_string(), "2".to_string()).unwrap();
        engine.set("a".to_string(), "3".to_string()).unwrap();
        assert_eq!(engine.get("a".to_string()).unwrap(), Some("3".to_string()));
        engine.remove("a".to_string()).unwrap();
        assert_eq!(engine.get("a".to_string()).unwrap(), None);
        assert_eq!(engine.get("b".to_string()).unwrap(), Some("2".to_string()));
    }
    exercise(&mut KvStore::new());
    exercise(&mut lsm::KvStore::new());
}

#[test]
fn first_run_records_the_engine() {
    let server = KvServer::bind(None, "kvs").unwrap();
    assert_eq!(server.engine, "kvs");
    let server = KvServer::bind(None, "sled").unwrap();
    assert_eq!(server.engine, "sled");
    assert_eq!(KvServer::new("kvs".to_string()).engine, "kvs");
}

#[test]
fn a_later_run_with_another_engine_is_refused() {
    let recorded = KvServer::bind(None, "kvs").unwrap();
    let again = KvServer::bind(Some(&recorded), "kvs").unwrap();
    assert_eq!(again.engine, "kvs");
    let refused = KvServer::bind(Some(&recorded), "sled");
    assert!(matches!(refused, Err(KVSError::EngineMismatch)));
    assert_eq!(KVSError::EngineMismatch.message(), "Wrong engine");
    assert_eq!(recorded.engine, "kvs");
    let recorded = KvServer::new("sled".to_string());
    assert!(matches!(KvServer::bind(Some(&recorded), "kvs"), Err(KVSError::EngineMismatch)));
    assert!(KvServer::bind(Some(&recorded), "sled").is_ok());
}

#[test]
fn a_name_that_is_no_engine_is_refused() {
    assert!(KvServer::is_engine("kvs"));
    assert!(KvServer::is_engine("sled"));
    assert!(!KvServer::is_engine("rocks"));
    assert!(!KvServer::is_engine(""));
    assert!(!KvServer::is_engine("KVS"));
    assert!(matches!(KvServer::bind(None, "rocks"), Err(KVSError::Corrupt)));
    let recorded = KvServer::new("kvs".to_string());
    assert!(matches!(KvServer::bind(Some(&recorded), "rocks"), Err(KVSError::Corrupt)));
}
