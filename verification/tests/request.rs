use rkv::server::request::{args_are_complete, command_from_args, DecodeError, Request};
use rkv::Command;

fn request_of(bytes: &[u8], ended: bool) -> Request {
    let mut r = Request::new();
    r.feed(bytes);
    if ended {
        r.close();
    }
    r
}

fn decode(r: &mut Request) -> Result<Option<Command>, DecodeError> {
    assert!(!r.would_panic());
    r.decode()
}

#[test]
fn decodes_ping() {
    let mut r = request_of(b"*1\r\n$4\r\nPING\r\n", false);
    assert!(matches!(decode(&mut r), Ok(Some(Command::PING))));
    // everything was consumed: the next frame is still to come
    assert_eq!(decode(&mut r).err(), Some(DecodeError::Incomplete));
    r.close();
    assert!(matches!(decode(&mut r), Ok(None)));
}

#[test]
fn decodes_set_value_as_third_argument() {
    let mut r = request_of(b"*3\r\n$3\r\nSET\r\n$3\r\nkey\r\n$5\r\nhello\r\n", false);
    match decode(&mut r) {
        Ok(Some(Command::SET(v))) => assert_eq!(v, b"hello"),
        other => panic!("unexpected {:?}", other),
    }
}

#[test]
fn decodes_get_digest_from_hex() {
    let mut r = request_of(b"*2\r\n$3\r\nGET\r\n$6\r\n0aFf10\r\n", true);
    match decode(&mut r) {
        Ok(Some(Command::GET(h))) => assert_eq!(h, vec![0x0a, 0xff, 0x10]),
        other => panic!("unexpected {:?}", other),
    }
}

#[test]
fn get_with_bad_hex_is_malformed() {
    let mut r = request_of(b"*2\r\n$3\r\nGET\r\n$2\r\nzz\r\n", false);
    assert_eq!(decode(&mut r).err(), Some(DecodeError::Malformed));
    let mut r = request_of(b"*2\r\n$3\r\nGET\r\n$3\r\nabc\r\n", false);
    assert_eq!(decode(&mut r).err(), Some(DecodeError::Malformed));
}

#[test]
fn set_with_one_argument_is_malformed() {
    let mut r = request_of(b"*1\r\n$3\r\nSET\r\n", false);
    assert_eq!(decode(&mut r).err(), Some(DecodeError::Malformed));
}

#[test]
fn unknown_command_is_not_supported() {
    let mut r = request_of(b"*2\r\n$4\r\nECHO\r\n$2\r\nhi\r\n", false);
    assert!(matches!(decode(&mut r), Ok(Some(Command::NOTSUPPORTED))));
    // commands are case sensitive
    let mut r = request_of(b"*1\r\n$4\r\nping\r\n", false);
    assert!(matches!(decode(&mut r), Ok(Some(Command::NOTSUPPORTED))));
}

#[test]
fn frame_must_be_an_array() {
    let mut r = request_of(b"+OK\r\n*1\r\n$4\r\nPING\r\n", false);
    assert_eq!(decode(&mut r).err(), Some(DecodeError::NotAnArray));
    // the bad line was consumed
    assert!(matches!(decode(&mut r), Ok(Some(Command::PING))));
}

#[test]
fn array_count_must_be_a_digit() {
    let mut r = request_of(b"*x\r\n", false);
    assert_eq!(decode(&mut r).err(), Some(DecodeError::Malformed));
    let mut r = request_of(b"*\r\n", false);
    assert_eq!(decode(&mut r).err(), Some(DecodeError::Malformed));
}

#[test]
fn only_the_first_count_digit_counts() {
    // "*12" announces one argument
    let mut r = request_of(b"*12\r\n$4\r\nPING\r\n", false);
    assert!(matches!(decode(&mut r), Ok(Some(Command::PING))));
}

#[test]
fn bulk_must_start_with_dollar() {
    let mut r = request_of(b"*1\r\n#4\r\nPING\r\n", false);
    assert_eq!(decode(&mut r).err(), Some(DecodeError::Malformed));
    let mut r = request_of(b"*1\r\n$x\r\nPING\r\n", false);
    assert_eq!(decode(&mut r).err(), Some(DecodeError::Malformed));
}

#[test]
fn bulk_size_reads_leading_digits() {
    // leading zeros are allowed, bytes after the digits are ignored
    let mut r = request_of(b"*1\r\n$04\r\nPING\r\n*1\r\n$4 is four\r\nPING\r\n", false);
    assert!(matches!(decode(&mut r), Ok(Some(Command::PING))));
    assert!(matches!(decode(&mut r), Ok(Some(Command::PING))));
}

#[test]
fn bulk_terminator_is_skipped_not_checked() {
    let mut r = request_of(b"*1\r\n$4\r\nPINGxy", false);
    assert!(matches!(decode(&mut r), Ok(Some(Command::PING))));
}

#[test]
fn empty_line_ends_the_session() {
    let mut r = request_of(b"\r\n", false);
    assert!(matches!(decode(&mut r), Ok(None)));
    let mut r = request_of(b"", true);
    assert!(matches!(decode(&mut r), Ok(None)));
}

#[test]
fn incomplete_frame_waits_for_more() {
    let mut r = request_of(b"*1\r\n$4\r\nPI", false);
    assert_eq!(decode(&mut r).err(), Some(DecodeError::Incomplete));
    r.feed(b"NG\r\n");
    assert!(matches!(decode(&mut r), Ok(Some(Command::PING))));
}

#[test]
fn byte_by_byte_feeding_gives_the_same_command() {
    let frame = b"*3\r\n$3\r\nSET\r\n$1\r\nk\r\n$4\r\ndata\r\n";
    let mut r = Request::new();
    for (i, b) in frame.iter().enumerate() {
        r.feed(&[*b]);
        let res = decode(&mut r);
        if i + 1 < frame.len() {
            assert_eq!(res.err(), Some(DecodeError::Incomplete));
        } else {
            match res {
                Ok(Some(Command::SET(v))) => assert_eq!(v, b"data"),
                other => panic!("unexpected {:?}", other),
            }
        }
    }
}

#[test]
fn frame_cut_by_end_of_stream_is_malformed() {
    let mut r = request_of(b"*1\r\n$4\r\nPI", true);
    assert_eq!(decode(&mut r).err(), Some(DecodeError::Malformed));
    let mut r = request_of(b"*2\r\n$4\r\nPING\r\n", true);
    assert_eq!(decode(&mut r).err(), Some(DecodeError::Malformed));
}

#[test]
fn unterminated_last_line_at_end_of_stream() {
    // the last line runs to the end of the stream; its last two bytes are dropped
    let mut r = request_of(b"*1\r\n$4xy", true);
    assert!(!r.would_panic());
    assert_eq!(r.decode().err(), Some(DecodeError::Malformed));
}

#[test]
fn missing_arguments_cannot_be_decoded() {
    assert!(request_of(b"*0\r\n", false).would_panic());
    assert!(request_of(b"*2\r\n$3\r\nSET\r\n$1\r\nk\r\n", false).would_panic());
    assert!(request_of(b"*1\r\n$3\r\nGET\r\n", false).would_panic());
    assert!(!request_of(b"*1\r\n$3\r\nSET\r\n", false).would_panic());
    assert!(!request_of(b"*2\r\n$3\r\nSET\r\n", false).would_panic());
}

#[test]
fn oversized_bulk_cannot_be_decoded() {
    assert!(request_of(b"*1\r\n$99999999999999999999999\r\n", false).would_panic());
    let max = format!("*1\r\n${}\r\n", usize::MAX);
    assert!(request_of(max.as_bytes(), false).would_panic());
    let almost = format!("*1\r\n${}\r\n", usize::MAX - 2);
    let r = request_of(almost.as_bytes(), false);
    assert!(!r.would_panic());
}

#[test]
fn large_declared_size_waits_or_fails_at_end() {
    let mut r = request_of(b"*1\r\n$1000\r\nabc", false);
    assert_eq!(decode(&mut r).err(), Some(DecodeError::Incomplete));
    r.close();
    assert_eq!(decode(&mut r).err(), Some(DecodeError::Malformed));
}

#[test]
fn values_may_hold_line_feeds() {
    let mut r = request_of(b"*3\r\n$3\r\nSET\r\n$0\r\n\r\n$4\r\na\nb\n\r\n", false);
    match decode(&mut r) {
        Ok(Some(Command::SET(v))) => assert_eq!(v, b"a\nb\n"),
        other => panic!("unexpected {:?}", other),
    }
}

#[test]
fn encoded_request_roundtrips() {
    // what a client writes for nine arguments decodes to them
    let args: Vec<Vec<u8>> = (0..9).map(|i| vec![b'a' + i as u8; i * 3]).collect();
    let mut frame = format!("*{}\r\n", args.len()).into_bytes();
    for a in &args {
        frame.extend_from_slice(format!("${}\r\n", a.len()).as_bytes());
        frame.extend_from_slice(a);
        frame.extend_from_slice(b"\r\n");
    }
    let mut with_set = args.clone();
    with_set[0] = b"SET".to_vec();
    let mut bytes = format!("*{}\r\n", with_set.len()).into_bytes();
    for a in &with_set {
        bytes.extend_from_slice(format!("${}\r\n", a.len()).as_bytes());
        bytes.extend_from_slice(a);
        bytes.extend_from_slice(b"\r\n");
    }
    let mut r = request_of(&bytes, false);
    match decode(&mut r) {
        Ok(Some(Command::SET(v))) => assert_eq!(v, with_set[2]),
        other => panic!("unexpected {:?}", other),
    }
    let mut r = request_of(&frame, false);
    assert!(matches!(decode(&mut r), Ok(Some(Command::NOTSUPPORTED))));
}

#[test]
fn command_from_complete_args() {
    let args = vec![b"SET".to_vec(), b"k".to_vec(), b"v".to_vec(), b"w".to_vec()];
    assert!(args_are_complete(&args));
    match command_from_args(args) {
        Ok(Command::SET(v)) => assert_eq!(v, b"v"),
        other => panic!("unexpected {:?}", other),
    }
    assert!(!args_are_complete(&vec![]));
    assert!(!args_are_complete(&vec![b"GET".to_vec()]));
    assert!(!args_are_complete(&vec![b"SET".to_vec(), b"k".to_vec()]));
    assert!(args_are_complete(&vec![b"PING".to_vec()]));
}

#[test]
fn session_decodes_requests_in_order() {
    let mut r = request_of(
        b"*1\r\n$4\r\nPING\r\n*3\r\n$3\r\nSET\r\n$1\r\nk\r\n$1\r\nv\r\n*1\r\n$4\r\nECHO\r\n",
        true,
    );
    assert!(matches!(decode(&mut r), Ok(Some(Command::PING))));
    match decode(&mut r) {
        Ok(Some(Command::SET(v))) => assert_eq!(v, b"v"),
        other => panic!("unexpected {:?}", other),
    }
    assert!(matches!(decode(&mut r), Ok(Some(Command::NOTSUPPORTED))));
    assert!(matches!(decode(&mut r), Ok(None)));
}
