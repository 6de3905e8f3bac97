//! The server's side of a session: decoding requests, and the replies to them.
use vstd::prelude::*;
use vstd::utf8::{encode_utf8, is_ascii_chars, is_ascii_chars_encode_utf8, valid_utf8};
use crate::codec::{ascii_bytes, decimal, decimal_text, hex_chars, hex_decoded, lemma_hex_roundtrip};
use crate::storage::{message_of, StorageError};
use crate::server::request::{bulk_at, bulk_encoding, lemma_bulk_roundtrip, Bulk, DecodeError};
use crate::{Command, CommandView};

pub mod request;

verus! {

/// What a command came to, ready to be answered.
#[derive(Debug)]
pub enum Reply {
    /// `PING` was received.
    Pong,
    /// `SET` stored its value under the key given, or failed.
    Stored(Result<String, StorageError>),
    /// `GET` read the value given, or failed.
    Fetched(Result<Vec<u8>, StorageError>),
    /// The command is not one the server handles.
    NotHandled,
}

/// `+PONG\r\n`
pub open spec fn pong_bytes() -> Seq<u8> {
    seq![43u8, 80, 79, 78, 71, 13, 10]
}

/// `-Corrupted data\r\n`
pub open spec fn corrupted_bytes() -> Seq<u8> {
    seq![45u8, 67, 111, 114, 114, 117, 112, 116, 101, 100, 32, 100, 97, 116, 97, 13, 10]
}

/// `-Command not handled\r\n`
pub open spec fn not_handled_bytes() -> Seq<u8> {
    seq![
        45u8, 67, 111, 109, 109, 97, 110, 100, 32, 110, 111, 116, 32, 104, 97, 110, 100, 108, 101,
        100, 13, 10,
    ]
}

/// `-Error: `
pub open spec fn error_prefix() -> Seq<u8> {
    seq![45u8, 69, 114, 114, 111, 114, 58, 32]
}

/// `\r\n`
pub open spec fn crlf() -> Seq<u8> {
    seq![13u8, 10]
}

/// The reply to an error: an error line, `-Error: ` and the error's message,
/// ended by `\r\n`.
pub open spec fn error_reply(e: StorageError) -> Seq<u8> {
    error_prefix() + encode_utf8(message_of(e)) + crlf()
}

/// The bytes that answer a command.
pub open spec fn reply_bytes(reply: Reply) -> Seq<u8> {
    match reply {
        Reply::Pong => pong_bytes(),
        Reply::Stored(Ok(key)) => seq![43u8] + encode_utf8(key@) + crlf(),
        Reply::Stored(Err(e)) => error_reply(e),
        Reply::Fetched(Ok(value)) => if valid_utf8(value@) {
            seq![36u8] + decimal(value@.len()) + crlf() + value@ + crlf()
        } else {
            corrupted_bytes()
        },
        Reply::Fetched(Err(e)) => error_reply(e),
        Reply::NotHandled => not_handled_bytes(),
    }
}

/// Calls `std::str::from_utf8`, which accepts exactly the well-formed UTF-8 byte
/// sequences; answers whether it accepted `bytes`.
#[verifier::external_body]
fn is_utf8(bytes: &[u8]) -> (ok: bool)
    ensures
        ok == valid_utf8(bytes@),
{
    std::str::from_utf8(bytes).is_ok()
}

/// Appends `data` to `out`.
fn extend(out: &mut Vec<u8>, data: &[u8])
    ensures
        final(out)@ == old(out)@ + data@,
{
    let ghost before = out@;
    let mut i: usize = 0;
    while i < data.len()
        invariant
            i <= data.len(),
            out@ == before + data@.take(i as int),
        decreases data.len() - i,
    {
        out.push(data[i]);
        i = i + 1;
        assert(out@ =~= before + data@.take(i as int));
    }
    assert(data@.take(i as int) =~= data@);
}

/// Writes a message to the reply buffer. A write that takes no more than one byte
/// is taken for a failure, so a message is always longer than that.
pub fn write(writer: &mut Vec<u8>, data: &[u8])
    requires
        data@.len() > 1,
    ensures
        final(writer)@ == old(writer)@ + data@,
{
    extend(writer, data);
}

/// The error reply to `e`.
fn error_message(e: &StorageError) -> (msg: Vec<u8>)
    ensures
        msg@ == error_reply(*e),
{
    let mut msg: Vec<u8> = Vec::new();
    extend(&mut msg, &[45u8, 69, 114, 114, 111, 114, 58, 32]);
    let text = e.message();
    extend(&mut msg, text.as_str().as_bytes());
    extend(&mut msg, &[13u8, 10]);
    assert(msg@ =~= error_reply(*e));
    msg
}

/// Writes the answer to a command to the reply buffer.
pub fn respond(writer: &mut Vec<u8>, reply: &Reply)
    ensures
        final(writer)@ == old(writer)@ + reply_bytes(*reply),
{
    match reply {
        Reply::Pong => {
            let msg = [43u8, 80, 79, 78, 71, 13, 10];
            assert(msg@ =~= pong_bytes());
            write(writer, &msg);
        },
        Reply::Stored(Ok(key)) => {
            let mut msg: Vec<u8> = Vec::new();
            msg.push(43u8);
            extend(&mut msg, key.as_str().as_bytes());
            extend(&mut msg, &[13u8, 10]);
            assert(msg@ =~= reply_bytes(*reply));
            write(writer, msg.as_slice());
        },
        Reply::Stored(Err(e)) => {
            let msg = error_message(e);
            write(writer, msg.as_slice());
        },
        Reply::Fetched(Ok(value)) => {
            if is_utf8(value.as_slice()) {
                let mut msg: Vec<u8> = Vec::new();
                msg.push(36u8);
                let len = decimal_text(value.len());
                extend(&mut msg, len.as_slice());
                extend(&mut msg, &[13u8, 10]);
                extend(&mut msg, value.as_slice());
                extend(&mut msg, &[13u8, 10]);
                assert(msg@ =~= reply_bytes(*reply));
                write(writer, msg.as_slice());
            } else {
                let msg = [
                    45u8, 67, 111, 114, 114, 117, 112, 116, 101, 100, 32, 100, 97, 116, 97, 13, 10,
                ];
                assert(msg@ =~= corrupted_bytes());
                write(writer, &msg);
            }
        },
        Reply::Fetched(Err(e)) => {
            let msg = error_message(e);
            write(writer, msg.as_slice());
        },
        Reply::NotHandled => {
            let msg = [
                45u8, 67, 111, 109, 109, 97, 110, 100, 32, 110, 111, 116, 32, 104, 97, 110, 100, 108,
                101, 100, 13, 10,
            ];
            assert(msg@ =~= not_handled_bytes());
            write(writer, &msg);
        },
    }
}

/// The answer to `GET` is the value as a bulk string, which reads back as the
/// value with the grammar that requests are read with.
pub proof fn lemma_fetched_reply_reads_back(value: Vec<u8>, rest: Seq<u8>, eof: bool)
    requires
        valid_utf8(value@),
        value@.len() + 2 <= usize::MAX,
    ensures
        reply_bytes(Reply::Fetched(Ok(value))) == bulk_encoding(value@),
        bulk_at(reply_bytes(Reply::Fetched(Ok(value))) + rest, 0, eof) == Bulk::Arg(
            value@,
            bulk_encoding(value@).len() as int,
        ),
{
    lemma_bulk_roundtrip(Seq::empty(), value@, rest, eof);
    assert(Seq::<u8>::empty() + bulk_encoding(value@) =~= bulk_encoding(value@));
}

/// The answer to a stored value is `+`, every byte of its key, and `\r\n`,
/// whatever the key's length.
pub proof fn lemma_stored_reply_carries_key(key: String)
    ensures
        ({
            let r = reply_bytes(Reply::Stored(Ok(key)));
            &&& r.len() == encode_utf8(key@).len() + 3
            &&& r[0] == 43
            &&& r.subrange(1, r.len() - 2) == encode_utf8(key@)
            &&& r[r.len() - 2] == 13
            &&& r[r.len() - 1] == 10
        }),
{
    let r = reply_bytes(Reply::Stored(Ok(key)));
    assert(r.subrange(1, r.len() - 2) =~= encode_utf8(key@));
}

/// The answer to `SET`, with its first byte and its line terminator taken off,
/// is hexadecimal text that decodes to the digest the key was made from: a
/// client can send it back with `GET`.
pub proof fn lemma_stored_reply_names_digest(key: String, digest: Seq<u8>)
    requires
        key@ == hex_chars(digest),
    ensures
        ({
            let r = reply_bytes(Reply::Stored(Ok(key)));
            hex_decoded(r.subrange(1, r.len() - 2)) == Some(digest)
        }),
{
    let chars = hex_chars(digest);
    assert forall|i| 0 <= i < chars.len() implies '\0' <= #[trigger] chars[i] <= '\u{7f}' by {
        let b = digest[i / 2] as int;
        assert(0 <= b / 16 < 16);
        assert(0 <= b % 16 < 16);
    }
    assert(is_ascii_chars(chars));
    is_ascii_chars_encode_utf8(chars);
    assert(encode_utf8(chars) =~= ascii_bytes(chars));
    lemma_stored_reply_carries_key(key);
    lemma_hex_roundtrip(digest);
}

/// An error is answered by one complete error line: `-Error: `, every byte of
/// the error's message, and `\r\n`.
pub proof fn lemma_error_reply_is_a_line(e: StorageError)
    ensures
        ({
            let r = error_reply(e);
            let m = encode_utf8(message_of(e));
            &&& r.len() == m.len() + 10
            &&& r.take(8) == seq![45u8, 69, 114, 114, 111, 114, 58, 32]
            &&& r.subrange(8, r.len() - 2) == m
            &&& r[r.len() - 2] == 13
            &&& r[r.len() - 1] == 10
        }),
{
    let r = error_reply(e);
    assert(r.take(8) =~= seq![45u8, 69, 114, 114, 111, 114, 58, 32]);
    assert(r.subrange(8, r.len() - 2) =~= encode_utf8(message_of(e)));
}

/// What a session does next.
#[derive(Debug)]
pub enum Action {
    /// Answer at once.
    Answer(Reply),
    /// Store the value, then answer with `Reply::Stored`.
    Store(Vec<u8>),
    /// Read the value stored under the digest, then answer with `Reply::Fetched`.
    Fetch(Vec<u8>),
    /// Read more of the stream and decode again.
    Wait,
    /// The session is over.
    Close,
    /// The request cannot be decoded; the session cannot go on.
    Fail(DecodeError),
}

/// Decides what a session does with the outcome of decoding a request.
pub fn next_action(decoded: Result<Option<Command>, DecodeError>) -> (action: Action)
    ensures
        match decoded {
            Ok(Some(cmd)) => match cmd@ {
                CommandView::Ping => action matches Action::Answer(Reply::Pong),
                CommandView::Store(v) => action matches Action::Store(w) && w@ == v,
                CommandView::Fetch(h) => action matches Action::Fetch(g) && g@ == h,
                CommandView::NotSupported => action matches Action::Answer(Reply::NotHandled),
            },
            Ok(None) => action is Close,
            Err(DecodeError::Incomplete) => action is Wait,
            Err(e) => action matches Action::Fail(f) && f == e,
        },
{
    match decoded {
        Ok(Some(Command::PING)) => Action::Answer(Reply::Pong),
        Ok(Some(Command::SET(value))) => Action::Store(value),
        Ok(Some(Command::GET(hash))) => Action::Fetch(hash),
        Ok(Some(Command::NOTSUPPORTED)) => Action::Answer(Reply::NotHandled),
        Ok(None) => Action::Close,
        Err(DecodeError::Incomplete) => Action::Wait,
        Err(e) => Action::Fail(e),
    }
}

} // verus!
