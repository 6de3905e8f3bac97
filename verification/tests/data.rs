use rkv::storage::data::{check_open_mark, fetch, insert, OPEN_MARK, RECORD_HEADER_LEN};
use rkv::storage::{Metadata, StorageError};

/// Opens the data file held in `file`: appends the mark byte.
fn new_data(file: &mut Vec<u8>) {
    file.push(OPEN_MARK);
    check_open_mark(1).unwrap();
}

/// Appends the record of `content` to `file`.
fn insert_into(file: &mut Vec<u8>, content: &[u8]) -> Metadata {
    let (metadata, record) = insert(file.len() as u64, content);
    file.extend_from_slice(&record);
    metadata
}

/// Reads what `metadata` describes from `file`.
fn fetch_from(file: &[u8], metadata: &Metadata) -> Vec<u8> {
    let (pos, len) = fetch(metadata);
    let pos = pos as usize;
    file[pos..pos + len].to_vec()
}

#[test]
fn data_new_single_time() {
    let mut file = Vec::new();
    new_data(&mut file);
    assert_eq!(&file, b"X");
}

#[test]
fn data_new_multiple_times() {
    let mut file = Vec::new();
    new_data(&mut file);
    new_data(&mut file);
    assert_eq!(&file, b"XX");
}

#[test]
fn data_insert_single_times() {
    let mut file = Vec::new();
    new_data(&mut file);
    let content = b"testdata";
    insert_into(&mut file, content);
    // X|hash|content.len()|content|
    // 1| 32 |       4     |   8   | = 45
    assert_eq!(file.len(), 45);
}

#[test]
fn data_insert_multiple_times() {
    let mut file = Vec::new();
    new_data(&mut file);
    let content = b"testdata";
    insert_into(&mut file, content);
    insert_into(&mut file, content);
    assert_eq!(file.len(), 89);
}

#[test]
fn data_fetch_single_insert_single() {
    let mut file = Vec::new();
    new_data(&mut file);
    let content = b"testdata";
    let metadata = insert_into(&mut file, content);
    let val = fetch_from(&file, &metadata);
    assert_eq!(val, content);
}

#[test]
fn data_fetch_multiple_insert_single() {
    let mut file = Vec::new();
    new_data(&mut file);
    let content = b"testdata";
    let metadata = insert_into(&mut file, content);
    let val = fetch_from(&file, &metadata);
    assert_eq!(val, content);
    let val = fetch_from(&file, &metadata);
    assert_eq!(val, content);
}

#[test]
fn data_fetch_multiple_insert_multiple() {
    let mut file = Vec::new();
    new_data(&mut file);
    let content1 = b"testdata";
    let metadata1 = insert_into(&mut file, content1);
    let content2 = b"version2data";
    let metadata2 = insert_into(&mut file, content2);

    let val = fetch_from(&file, &metadata1);
    assert_eq!(val, content1);
    let val = fetch_from(&file, &metadata1);
    assert_eq!(val, content1);

    let val = fetch_from(&file, &metadata2);
    assert_eq!(val, content2);
    let val = fetch_from(&file, &metadata2);
    assert_eq!(val, content2);
}

#[test]
fn record_layout_is_digest_length_value() {
    let (metadata, record) = insert(7, b"testdata");
    assert_eq!(metadata.offset, 7);
    assert_eq!(metadata.length, 8);
    assert_eq!(
        hex_of(&metadata.hash),
        "810ff2fb242a5dee4220f2cb0e6a519891fb67f2f828a6cab4ef8894633b1f50"
    );
    assert_eq!(&record[..32], &metadata.hash[..]);
    assert_eq!(&record[32..36], &[8u8, 0, 0, 0]);
    assert_eq!(&record[36..], b"testdata");
    assert_eq!(RECORD_HEADER_LEN, 36);
}

#[test]
fn record_of_empty_value() {
    let (metadata, record) = insert(0, b"");
    assert_eq!(metadata.length, 0);
    assert_eq!(record.len(), 36);
    assert_eq!(
        hex_of(&metadata.hash),
        "e3b0c44298fc1c149afbf4c8996fb92427ae41e4649b934ca495991b7852b855"
    );
}

#[test]
fn length_is_little_endian() {
    let value = vec![7u8; 0x0102];
    let (metadata, record) = insert(0, &value);
    assert_eq!(metadata.length, 0x0102);
    assert_eq!(&record[32..36], &[0x02u8, 0x01, 0, 0]);
}

#[test]
fn fetch_skips_record_header() {
    let metadata = Metadata { offset: 100, length: 5, hash: [0u8; 32] };
    assert_eq!(fetch(&metadata), (136, 5));
}

#[test]
fn open_mark_write_must_be_whole() {
    assert!(check_open_mark(1).is_ok());
    assert!(matches!(check_open_mark(0), Err(StorageError::Corrupted)));
    assert!(matches!(check_open_mark(2), Err(StorageError::Corrupted)));
}

fn hex_of(bytes: &[u8]) -> String {
    bytes.iter().map(|b| format!("{:02x}", b)).collect()
}
