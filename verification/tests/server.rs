use rkv::codec::decimal_text;
use rkv::server::request::{DecodeError, Request};
use rkv::server::{next_action, respond, Action, Reply};
use rkv::storage::data::{fetch, insert};
use rkv::storage::index::Index;
use rkv::storage::{Storage, StorageError};
use rkv::Command;

fn reply(r: Reply) -> Vec<u8> {
    let mut out = Vec::new();
    respond(&mut out, &r);
    out
}

#[test]
fn write_appends_the_message() {
    let mut out = b"ab".to_vec();
    rkv::server::write(&mut out, b"cd");
    assert_eq!(out, b"abcd");
}

#[test]
fn pong_reply() {
    assert_eq!(reply(Reply::Pong), b"+PONG\r\n");
}

#[test]
fn stored_reply_carries_the_key() {
    assert_eq!(reply(Reply::Stored(Ok("abc".to_string()))), b"+abc\r\n");
}

#[test]
fn error_replies_carry_the_message() {
    assert_eq!(
        reply(Reply::Stored(Err(StorageError::Io("disk full".to_string())))),
        b"-Error: disk full\r\n"
    );
    assert_eq!(
        reply(Reply::Fetched(Err(StorageError::NotFound))),
        b"-Error: Value is not found\r\n"
    );
    assert_eq!(
        reply(Reply::Stored(Err(StorageError::Corrupted))),
        b"-Error: Error: Data corruption may have occurred\r\n"
    );
}

#[test]
fn fetched_reply_is_a_bulk_string() {
    assert_eq!(reply(Reply::Fetched(Ok(b"hello".to_vec()))), b"$5\r\nhello\r\n");
    assert_eq!(reply(Reply::Fetched(Ok(Vec::new()))), b"$0\r\n\r\n");
    let long = vec![b'z'; 1234];
    let mut expected = b"$1234\r\n".to_vec();
    expected.extend_from_slice(&long);
    expected.extend_from_slice(b"\r\n");
    assert_eq!(reply(Reply::Fetched(Ok(long))), expected);
    // the length counts bytes, not characters
    assert_eq!(reply(Reply::Fetched(Ok("é".as_bytes().to_vec()))), "$2\r\né\r\n".as_bytes());
}

#[test]
fn fetched_value_that_is_not_utf8_is_reported() {
    assert_eq!(reply(Reply::Fetched(Ok(vec![0xff, 0xfe]))), b"-Corrupted data\r\n");
}

#[test]
fn not_handled_reply() {
    assert_eq!(reply(Reply::NotHandled), b"-Command not handled\r\n");
}

#[test]
fn decimal_text_of_numbers() {
    assert_eq!(decimal_text(0), b"0");
    assert_eq!(decimal_text(9), b"9");
    assert_eq!(decimal_text(10), b"10");
    assert_eq!(decimal_text(18446744073709551615), b"18446744073709551615");
}

#[test]
fn actions_follow_the_decoded_command() {
    assert!(matches!(next_action(Ok(Some(Command::PING))), Action::Answer(Reply::Pong)));
    assert!(matches!(next_action(Ok(Some(Command::NOTSUPPORTED))), Action::Answer(Reply::NotHandled)));
    match next_action(Ok(Some(Command::SET(b"v".to_vec())))) {
        Action::Store(v) => assert_eq!(v, b"v"),
        other => panic!("unexpected {:?}", other),
    }
    match next_action(Ok(Some(Command::GET(vec![1, 2])))) {
        Action::Fetch(h) => assert_eq!(h, vec![1, 2]),
        other => panic!("unexpected {:?}", other),
    }
    assert!(matches!(next_action(Ok(None)), Action::Close));
    assert!(matches!(next_action(Err(DecodeError::Incomplete)), Action::Wait));
    assert!(matches!(
        next_action(Err(DecodeError::NotAnArray)),
        Action::Fail(DecodeError::NotAnArray)
    ));
}

/// SET then GET with the key that SET answered gives the value back.
#[test]
fn get_returns_what_set_stored() {
    let mut file = b"X".to_vec();
    let mut storage = Storage::new(Index::new());

    let (meta, record) = insert(file.len() as u64, b"hello");
    file.extend_from_slice(&record);
    let (key, fresh) = storage.set(meta);
    assert!(fresh);
    assert_eq!(key, "2cf24dba5fb0a30e26e83b2ac5b9e29e1b161e5c1fa7425e73043362938b9824");

    let request = format!("*2\r\n$3\r\nGET\r\n${}\r\n{}\r\n", key.len(), key);
    let mut r = Request::new();
    r.feed(request.as_bytes());
    assert!(!r.would_panic());
    let hash = match r.decode() {
        Ok(Some(Command::GET(h))) => h,
        other => panic!("unexpected {:?}", other),
    };
    let found = storage.get(&hash).unwrap();
    let (pos, len) = fetch(&found);
    let value = file[pos as usize..pos as usize + len].to_vec();
    assert_eq!(value, b"hello");
    assert_eq!(reply(Reply::Fetched(Ok(value))), b"$5\r\nhello\r\n");

    // the same value again: the first record stays the one found
    let (meta2, record2) = insert(file.len() as u64, b"hello");
    file.extend_from_slice(&record2);
    let (key2, fresh2) = storage.set(meta2);
    assert!(!fresh2);
    assert_eq!(key2, key);
    assert_eq!(storage.get(&hash).unwrap().offset, 1);
}

#[test]
fn fetched_reply_reads_back_as_bulk() {
    let mut frame = b"*1\r\n".to_vec();
    frame.extend_from_slice(&reply(Reply::Fetched(Ok(b"PING".to_vec()))));
    let mut r = Request::new();
    r.feed(&frame);
    assert!(!r.would_panic());
    assert!(matches!(r.decode(), Ok(Some(Command::PING))));
}

/// A value set before a restart is found again after the index file is reloaded.
#[test]
fn value_survives_a_restart() {
    let mut data_file = b"X".to_vec();
    let mut index_file = Vec::new();
    let mut storage = Storage::new(Index::load(&index_file));
    let (meta, record) = insert(data_file.len() as u64, b"hello");
    data_file.extend_from_slice(&record);
    let (key, fresh) = storage.set(meta);
    if fresh {
        index_file.push(meta);
    }
    // restart: the data file gets another mark, the index is reloaded
    data_file.push(b'X');
    let reloaded = Storage::new(Index::load(&index_file));
    let mut r = Request::new();
    r.feed(format!("*2\r\n$3\r\nGET\r\n$64\r\n{}\r\n", key).as_bytes());
    let hash = match r.decode() {
        Ok(Some(Command::GET(h))) => h,
        other => panic!("unexpected {:?}", other),
    };
    let (pos, len) = fetch(&reloaded.get(&hash).unwrap());
    assert_eq!(&data_file[pos as usize..pos as usize + len], b"hello");
}

#[test]
fn unknown_digest_gets_a_complete_error_line() {
    let storage = Storage::new(Index::new());
    let res = storage.get(&[0u8; 32]).map(|_| Vec::new());
    assert_eq!(reply(Reply::Fetched(res)), b"-Error: Value is not found\r\n");
}
