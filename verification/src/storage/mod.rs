//! Storage: an append-only data file of records, and an index from digest to
//! the place of a record in that file.
//!
//! The files themselves are read and written by the caller; this module decides
//! what is written where, and what is looked up.
use vstd::prelude::*;
use crate::codec::{ascii_bytes, hex_chars, hex_decoded, lemma_hex_roundtrip};
use crate::storage::data::{read_value, record_bytes, sha256_digest};
use crate::storage::index::{
    empty_branches, enter, enter_all, lemma_enter_all_len, lemma_enter_lookup, lemma_lookup_matches,
    lookup_in, Index,
};

pub mod data;
pub mod index;

verus! {

/// Where a value lies in the data file, and the digest it is found by.
#[derive(Debug, Clone, Copy)]
pub struct Metadata {
    /// Position of the record (its digest) in the data file.
    pub offset: u64,
    /// Length of the value, as stored in the record.
    pub length: u32,
    /// SHA-256 digest of the value.
    pub hash: [u8; 32],
}

/// Why a storage operation failed.
#[derive(Debug)]
pub enum StorageError {
    /// No value is stored under the digest.
    NotFound,
    /// The mark byte could not be written whole when the data file was opened.
    Corrupted,
    /// An input or output operation failed, with its message.
    Io(String),
}

/// The text that an error reply carries.
pub open spec fn message_of(e: StorageError) -> Seq<char> {
    match e {
        StorageError::NotFound => "Value is not found"@,
        StorageError::Corrupted => "Error: Data corruption may have occurred"@,
        StorageError::Io(m) => m@,
    }
}

impl StorageError {
    /// The text that an error reply carries.
    pub fn message(&self) -> (msg: String)
        ensures
            msg@ == message_of(*self),
    {
        match self {
            StorageError::NotFound => String::from_str("Value is not found"),
            StorageError::Corrupted => String::from_str("Error: Data corruption may have occurred"),
            StorageError::Io(m) => m.clone(),
        }
    }
}

/// The 32-byte digest that a key names: its first 32 bytes, padded with zeros.
pub open spec fn key_digest(key: Seq<u8>) -> Seq<u8> {
    Seq::new(32, |i: int| if i < key.len() { key[i] } else { 0u8 })
}

/// Only the first 32 bytes of a key count, and a shorter key is taken as it is,
/// followed by zeros up to 32 bytes.
pub proof fn lemma_key_digest(key: Seq<u8>, extra: Seq<u8>)
    ensures
        key_digest(key).len() == 32,
        key.len() >= 32 ==> key_digest(key + extra) == key.take(32),
        key.len() <= 32 ==> key_digest(key).take(key.len() as int) == key,
        forall|i: int| key.len() <= i < 32 ==> #[trigger] key_digest(key)[i] == 0,
{
    if key.len() >= 32 {
        assert(key_digest(key + extra) =~= key.take(32));
    }
    if key.len() <= 32 {
        assert(key_digest(key).take(key.len() as int) =~= key);
    }
}

/// The index of a store; the data file lies with the caller, who appends the
/// records that `data::insert` makes and reads where `data::fetch` says.
pub struct Storage {
    index: Index,
}

impl Storage {
    /// The index is well formed.
    pub open spec fn wf(&self) -> bool {
        self.index_view().wf()
    }

    /// The index of the store.
    pub closed spec fn index_view(&self) -> Index {
        self.index
    }

    /// What the store answers for the digest `hash`.
    pub open spec fn lookup(&self, hash: Seq<u8>) -> Option<Metadata> {
        self.index_view().lookup(hash)
    }

    /// A store over an index loaded from the index file.
    pub fn new(index: Index) -> (s: Storage)
        requires
            index.wf(),
        ensures
            s.wf(),
            s.index_view() == index,
    {
        Storage { index }
    }

    /// The index of the store.
    pub fn index(&self) -> (index: &Index)
        ensures
            *index == self.index_view(),
    {
        &self.index
    }

    /// Enters the metadata of a record just appended to the data file; answers the
    /// key of the value and whether the entry is new, and so is to be appended to
    /// the index file. A digest already entered keeps its first entry.
    pub fn set(&mut self, entry: Metadata) -> (res: (String, bool))
        requires
            old(self).wf(),
        ensures
            final(self).wf(),
            res.0@ == hex_chars(entry.hash@),
            res.1 == (old(self).lookup(entry.hash@) is None),
            final(self).index_view().branches() == enter(old(self).index_view().branches(), entry),
            forall|hash: Seq<u8>|
                #![trigger final(self).lookup(hash)]
                final(self).lookup(hash) == if hash == entry.hash@ && old(self).lookup(hash) is None {
                    Some(entry)
                } else {
                    old(self).lookup(hash)
                },
    {
        self.index.insert(entry)
    }

    /// The metadata of the value stored under `key`, a digest: only its first 32
    /// bytes count, and a shorter key is padded with zeros.
    pub fn get(&self, key: &[u8]) -> (res: Result<Metadata, StorageError>)
        requires
            self.wf(),
        ensures
            match res {
                Ok(m) => self.lookup(key_digest(key@)) == Some(m),
                Err(e) => e is NotFound && self.lookup(key_digest(key@)) is None,
            },
    {
        let mut array = [0u8; 32];
        let mut i: usize = 0;
        while i < 32 && i < key.len()
            invariant
                i <= 32,
                i <= key.len(),
                forall|j: int| 0 <= j < 32 ==> #[trigger] array@[j] == if j < i { key@[j] } else { 0u8 },
            decreases 32 - i,
        {
            array[i] = key[i];
            i = i + 1;
        }
        assert(array@ =~= key_digest(key@));
        match self.index.get(&array) {
            Some(m) => Ok(m),
            None => Err(StorageError::NotFound),
        }
    }
}

/// A value reads back from the record appended for it: once the record of `value`
/// is appended to a data file that ended at `entry.offset`, the read that `entry`
/// describes gives `value`, whatever is appended later.
pub proof fn lemma_read_after_append(file: Seq<u8>, value: Seq<u8>, later: Seq<u8>, entry: Metadata)
    requires
        entry.offset == file.len(),
        entry.length == value.len() as u32,
        entry.hash@.len() == 32,
        value.len() <= u32::MAX,
    ensures
        read_value(file + record_bytes(entry.hash@, value) + later, entry) == Some(value),
        (file + record_bytes(entry.hash@, value)).len() == file.len() + 36 + value.len(),
{
    let whole = file + record_bytes(entry.hash@, value) + later;
    let start = file.len() + 36int;
    assert(whole.subrange(start, start + value.len() as int) =~= value);
}

/// Appending never changes what an earlier read gives.
pub proof fn lemma_append_keeps_reads(file: Seq<u8>, more: Seq<u8>, meta: Metadata)
    requires
        read_value(file, meta) is Some,
    ensures
        read_value(file + more, meta) == read_value(file, meta),
{
    let start = meta.offset + 36;
    let end = start + meta.length;
    assert((file + more).subrange(start, end) =~= file.subrange(start, end));
}

/// What a key sent back reads: `GET` with the key that `SET` answered finds the
/// entry of that digest, and the value it reads is the value set, where the digest
/// was new; where it was not, the entry made first stays and reads as before.
pub proof fn lemma_set_then_get(
    before: Storage,
    after: Storage,
    file: Seq<u8>,
    value: Seq<u8>,
    later: Seq<u8>,
    entry: Metadata,
)
    requires
        entry.offset == file.len(),
        entry.length == value.len() as u32,
        entry.hash@ == sha256_digest(value),
        entry.hash@.len() == 32,
        value.len() <= u32::MAX,
        forall|hash: Seq<u8>|
            #![trigger after.lookup(hash)]
            after.lookup(hash) == if hash == entry.hash@ && before.lookup(hash) is None {
                Some(entry)
            } else {
                before.lookup(hash)
            },
    ensures
        ({
            let key = ascii_bytes(hex_chars(entry.hash@));
            let digest = hex_decoded(key)->0;
            let file_after = file + record_bytes(entry.hash@, value) + later;
            &&& hex_decoded(key) == Some(entry.hash@)
            &&& key_digest(digest) == entry.hash@
            &&& before.lookup(entry.hash@) is None ==> {
                &&& after.lookup(key_digest(digest)) == Some(entry)
                &&& read_value(file_after, entry) == Some(value)
            }
            &&& before.lookup(entry.hash@) matches Some(m) ==> {
                &&& after.lookup(key_digest(digest)) == Some(m)
                &&& m.hash@ == sha256_digest(value)
                &&& (read_value(file, m) is Some ==> read_value(file_after, m) == read_value(file, m))
            }
        }),
{
    lemma_hex_roundtrip(entry.hash@);
    assert(key_digest(entry.hash@) =~= entry.hash@);
    lemma_read_after_append(file, value, later, entry);
    lemma_lookup_matches(before.index_view().branches(), entry.hash@);
    let _ = after.lookup(entry.hash@);
    if let Some(m) = before.lookup(entry.hash@) {
        if read_value(file, m) is Some {
            lemma_append_keeps_reads(file, record_bytes(entry.hash@, value) + later, m);
            assert(file + (record_bytes(entry.hash@, value) + later) =~= file + record_bytes(
                entry.hash@,
                value,
            ) + later);
        }
    }
}

/// A value survives a restart: where the index was loaded from an index file and
/// `SET` entered a value whose digest was new, appending its entry to the file,
/// then the index loaded again from the extended file finds that entry by the key
/// that `SET` answered, and the entry reads the value from the data file, whatever
/// was appended to it since. Where the digest was found, the file is left as it
/// is and the reloaded index answers as before.
pub proof fn lemma_value_survives_restart(
    index_file: Seq<Metadata>,
    data_file: Seq<u8>,
    value: Seq<u8>,
    later: Seq<u8>,
    entry: Metadata,
)
    requires
        entry.offset == data_file.len(),
        entry.length == value.len() as u32,
        entry.hash@ == sha256_digest(value),
        value.len() <= u32::MAX,
    ensures
        ({
            let loaded = enter_all(empty_branches(), index_file);
            let fresh = lookup_in(loaded, entry.hash@) is None;
            let saved = if fresh { index_file.push(entry) } else { index_file };
            let reloaded = enter_all(empty_branches(), saved);
            let key = ascii_bytes(hex_chars(entry.hash@));
            &&& reloaded == enter(loaded, entry)
            &&& fresh ==> {
                &&& lookup_in(reloaded, key_digest(hex_decoded(key)->0)) == Some(entry)
                &&& read_value(data_file + record_bytes(entry.hash@, value) + later, entry)
                    == Some(value)
            }
            &&& !fresh ==> lookup_in(reloaded, key_digest(hex_decoded(key)->0)) == lookup_in(
                loaded,
                entry.hash@,
            )
        }),
{
    let loaded = enter_all(empty_branches(), index_file);
    assert(empty_branches().len() == 256);
    lemma_enter_all_len(empty_branches(), index_file);
    assert(index_file.push(entry).drop_last() =~= index_file);
    lemma_hex_roundtrip(entry.hash@);
    assert(key_digest(entry.hash@) =~= entry.hash@);
    lemma_enter_lookup(loaded, entry, entry.hash@);
    lemma_read_after_append(data_file, value, later, entry);
}

} // verus!
