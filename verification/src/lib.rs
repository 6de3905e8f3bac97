//! A content-addressed, append-only key-value store that speaks a subset of the
//! Redis wire protocol.
//!
//! `SET value` stores a value and answers with the lowercase hexadecimal SHA-256
//! digest of the value; `GET digest` answers with the stored value.
use vstd::prelude::*;

pub mod codec;
pub mod server;
pub mod storage;

verus! {

/// A request decoded from the wire.
#[allow(non_camel_case_types)]
#[derive(Debug)]
pub enum Command {
    PING,
    /// Store the given value.
    SET(Vec<u8>),
    /// Fetch the value whose digest is given (already decoded from hexadecimal).
    GET(Vec<u8>),
    NOTSUPPORTED,
}

/// The mathematical form of a [`Command`].
pub enum CommandView {
    Ping,
    Store(Seq<u8>),
    Fetch(Seq<u8>),
    NotSupported,
}

impl View for Command {
    type V = CommandView;

    open spec fn view(&self) -> CommandView {
        match self {
            Command::PING => CommandView::Ping,
            Command::SET(v) => CommandView::Store(v@),
            Command::GET(h) => CommandView::Fetch(h@),
            Command::NOTSUPPORTED => CommandView::NotSupported,
        }
    }
}

} // verus!
