use rkv::storage::index::Index;
use rkv::storage::{Metadata, Storage, StorageError};

fn meta(offset: u64, first: u8, last: u8) -> Metadata {
    let mut hash = [0u8; 32];
    hash[0] = first;
    hash[31] = last;
    Metadata { offset, length: 3, hash }
}

#[test]
fn empty_index_finds_nothing() {
    let index = Index::new();
    assert!(index.get(&[0u8; 32]).is_none());
    assert!(index.entries().is_empty());
}

#[test]
fn insert_then_get() {
    let mut index = Index::new();
    let m = meta(10, 0xab, 1);
    let (key, fresh) = index.insert(m);
    assert!(fresh);
    assert_eq!(key, format!("ab{}01", "00".repeat(30)));
    let found = index.get(&m.hash).unwrap();
    assert_eq!(found.offset, 10);
    assert!(index.get(&meta(0, 0xab, 2).hash).is_none());
}

#[test]
fn first_entry_of_a_digest_stays() {
    let mut index = Index::new();
    assert!(index.insert_mem(&meta(1, 5, 5)).is_some());
    assert!(index.insert_mem(&meta(2, 5, 5)).is_none());
    let (_, fresh) = index.insert(meta(3, 5, 5));
    assert!(!fresh);
    assert_eq!(index.get(&meta(0, 5, 5).hash).unwrap().offset, 1);
    assert_eq!(index.entries().len(), 1);
}

#[test]
fn entries_come_branch_by_branch() {
    let mut index = Index::new();
    index.insert(meta(1, 9, 1));
    index.insert(meta(2, 3, 1));
    index.insert(meta(3, 9, 2));
    index.insert(meta(4, 0, 1));
    let offsets: Vec<u64> = index.entries().iter().map(|m| m.offset).collect();
    assert_eq!(offsets, vec![4, 2, 1, 3]);
}

#[test]
fn storage_get_uses_the_first_32_bytes_of_the_key() {
    let mut storage = Storage::new(Index::new());
    let m = meta(7, 1, 0);
    let (key, fresh) = storage.set(m);
    assert!(fresh);
    assert_eq!(key.len(), 64);
    assert_eq!(storage.get(&m.hash).unwrap().offset, 7);
    // a shorter key is padded with zeros
    assert_eq!(storage.get(&[1u8]).unwrap().offset, 7);
    // a longer key is cut
    let mut longer = m.hash.to_vec();
    longer.extend_from_slice(b"extra");
    assert_eq!(storage.get(&longer).unwrap().offset, 7);
    assert!(matches!(storage.get(&[2u8]), Err(StorageError::NotFound)));
    assert_eq!(storage.index().entries().len(), 1);
}

#[test]
fn load_keeps_the_first_entry_of_each_digest() {
    let entries = vec![meta(1, 4, 4), meta(2, 4, 5), meta(3, 4, 4), meta(4, 200, 0)];
    let index = Index::load(&entries);
    assert_eq!(index.get(&meta(0, 4, 4).hash).unwrap().offset, 1);
    assert_eq!(index.get(&meta(0, 4, 5).hash).unwrap().offset, 2);
    assert_eq!(index.get(&meta(0, 200, 0).hash).unwrap().offset, 4);
    let offsets: Vec<u64> = index.entries().iter().map(|m| m.offset).collect();
    assert_eq!(offsets, vec![1, 2, 4]);
}

#[test]
fn reloading_the_index_file_gives_the_same_answers() {
    let mut file = vec![meta(1, 4, 4), meta(2, 4, 4), meta(3, 9, 9)];
    let mut index = Index::load(&file);
    for m in [meta(5, 4, 4), meta(6, 7, 7), meta(7, 7, 7)] {
        let (_, fresh) = index.insert(m);
        if fresh {
            file.push(m);
        }
    }
    let reloaded = Index::load(&file);
    let dumped = Index::load(&index.entries());
    for probe in [meta(0, 4, 4), meta(0, 9, 9), meta(0, 7, 7), meta(0, 1, 1)] {
        let a = index.get(&probe.hash).map(|m| m.offset);
        assert_eq!(a, reloaded.get(&probe.hash).map(|m| m.offset));
        assert_eq!(a, dumped.get(&probe.hash).map(|m| m.offset));
    }
    assert_eq!(index.get(&meta(0, 4, 4).hash).unwrap().offset, 1);
    assert_eq!(index.get(&meta(0, 7, 7).hash).unwrap().offset, 6);
}
