use tag_storage::storage::{
    Error, MemoryFile, PlainStorage, Region, SeekFrom, Storage, StorageFile,
};

fn storage_over(data: Vec<u8>, start: u64, end: u64) -> PlainStorage<MemoryFile> {
    PlainStorage::new(MemoryFile::new(data), Region { start, end })
}

#[test]
fn grow_relocates_trailing_bytes() {
    // Region [0, 10) holds 'A's; the trailing bytes must survive the commit
    // of a 15-byte buffer, shifted right by 5.
    let mut data = vec![b'A'; 10];
    data.extend_from_slice(b"TRAILING");
    let mut writer = storage_over(data, 0, 10).writer();
    writer.write(&[b'B'; 15]).unwrap();
    writer.flush().unwrap();
    let storage = writer.into_storage();
    assert_eq!(storage.region.start, 0);
    assert_eq!(storage.region.end, 15);
    let out = storage.file.into_inner();
    assert_eq!(out.len(), 23);
    assert_eq!(&out[..15], &[b'B'; 15][..]);
    assert_eq!(&out[15..], b"TRAILING");
}

#[test]
fn shrink_relocates_trailing_bytes() {
    let mut data = vec![b'A'; 10];
    data.extend_from_slice(b"TRAILING");
    let mut writer = storage_over(data, 0, 10).writer();
    writer.write(&[b'C'; 3]).unwrap();
    writer.flush().unwrap();
    let storage = writer.into_storage();
    assert_eq!(storage.region.start, 0);
    assert_eq!(storage.region.end, 3);
    let out = storage.file.into_inner();
    assert_eq!(out.len(), 11);
    assert_eq!(&out[..3], b"CCC");
    assert_eq!(&out[3..], b"TRAILING");
}

#[test]
fn equal_size_commit_keeps_layout() {
    let mut data = vec![b'A'; 10];
    data.extend_from_slice(b"TRAILING");
    let mut writer = storage_over(data, 0, 10).writer();
    writer.write(b"0123456789").unwrap();
    writer.flush().unwrap();
    let storage = writer.into_storage();
    assert_eq!(storage.region.end, 10);
    let out = storage.file.into_inner();
    assert_eq!(out.len(), 18);
    assert_eq!(&out[..10], b"0123456789");
    assert_eq!(&out[10..], b"TRAILING");
}

#[test]
fn grow_in_the_middle_of_a_file() {
    // Bytes before the region must stay put as well.
    let data = b"HEAD--TAIL".to_vec();
    let mut writer = storage_over(data, 4, 6).writer();
    writer.write(b"LONGER").unwrap();
    writer.flush().unwrap();
    let storage = writer.into_storage();
    assert_eq!(storage.region.start, 4);
    assert_eq!(storage.region.end, 10);
    assert_eq!(storage.file.into_inner(), b"HEADLONGERTAIL".to_vec());
}

#[test]
fn empty_commit_removes_the_region() {
    // A fresh writer holds an empty replacement: committing it shrinks the
    // region away and pulls the trailing bytes in.
    let data = b"HEAD--TAIL".to_vec();
    let mut writer = storage_over(data, 4, 6).writer();
    writer.flush().unwrap();
    let storage = writer.into_storage();
    assert_eq!(storage.region.start, 4);
    assert_eq!(storage.region.end, 4);
    assert_eq!(storage.file.into_inner(), b"HEADTAIL".to_vec());
}

#[test]
fn grow_with_no_trailing_bytes() {
    let data = b"XY".to_vec();
    let mut writer = storage_over(data, 0, 2).writer();
    writer.write(b"ABCDE").unwrap();
    writer.flush().unwrap();
    assert_eq!(writer.into_storage().file.into_inner(), b"ABCDE".to_vec());
}

#[test]
fn commit_is_idempotent() {
    let mut data = vec![b'A'; 10];
    data.extend_from_slice(b"TRAILING");
    let mut writer = storage_over(data, 0, 10).writer();
    writer.write(b"SHORT").unwrap();
    writer.flush().unwrap();
    assert!(!writer.buffer_changed);
    let after_first: Vec<u8> = writer.storage.file.data.clone();
    // No write in between: the second flush must not touch the file.
    writer.flush().unwrap();
    assert!(!writer.buffer_changed);
    let storage = writer.into_storage();
    assert_eq!(storage.region.end, 5);
    assert_eq!(storage.file.into_inner(), after_first);
}

#[test]
fn writer_seek_rewrites_buffered_bytes() {
    let data = b"0123456789AB".to_vec();
    let mut writer = storage_over(data, 0, 10).writer();
    writer.write(b"HELLO").unwrap();
    assert_eq!(writer.seek(SeekFrom::Start(1)), Ok(1));
    writer.write(b"X").unwrap();
    writer.flush().unwrap();
    let out = writer.into_storage().file.into_inner();
    assert_eq!(&out[..5], b"HXLLO");
    assert_eq!(&out[5..], b"AB");
}

#[test]
fn writer_seek_past_end_zero_fills() {
    let data = b"0123456789".to_vec();
    let mut writer = storage_over(data, 0, 10).writer();
    assert_eq!(writer.seek(SeekFrom::Start(3)), Ok(3));
    writer.write(b"Z").unwrap();
    writer.flush().unwrap();
    let out = writer.into_storage().file.into_inner();
    assert_eq!(out, vec![0, 0, 0, b'Z']);
}

#[test]
fn writer_seek_before_start_is_refused() {
    let data = b"0123456789".to_vec();
    let mut writer = storage_over(data, 0, 10).writer();
    writer.write(b"HI").unwrap();
    assert_eq!(writer.seek(SeekFrom::Current(-5)), Err(Error::InvalidInput));
    assert_eq!(writer.seek(SeekFrom::End(-3)), Err(Error::InvalidInput));
}

#[test]
fn reader_stays_inside_the_region() {
    // A reader over [5, 8) of a 20-byte file, seeked to offset 2 (absolute
    // 7), serves exactly 1 byte and then reports end of region.
    let data: Vec<u8> = (0u8..20).collect();
    let mut reader = storage_over(data, 5, 8).reader();
    assert_eq!(reader.seek(SeekFrom::Start(2)), Ok(2));
    assert_eq!(reader.read(10), Ok(vec![7u8]));
    assert_eq!(reader.read(10), Ok(Vec::new()));
}

#[test]
fn reader_reads_the_whole_region() {
    let data: Vec<u8> = (0u8..20).collect();
    let mut reader = storage_over(data, 5, 8).reader();
    assert_eq!(reader.read(3), Ok(vec![5u8, 6, 7]));
    let storage = reader.into_storage();
    assert_eq!(storage.region, Region { start: 5, end: 8 });
}

#[test]
fn reader_seek_before_region_is_refused() {
    let data: Vec<u8> = (0u8..20).collect();
    let mut reader = storage_over(data, 5, 8).reader();
    assert_eq!(reader.seek(SeekFrom::Current(-1)), Err(Error::InvalidInput));
    assert_eq!(reader.seek(SeekFrom::End(-4)), Err(Error::InvalidInput));
    // The failed seeks left the cursor alone.
    assert_eq!(reader.read(1), Ok(vec![5u8]));
}

#[test]
fn reader_seek_relative_forms_agree() {
    let data: Vec<u8> = (0u8..20).collect();
    let mut reader = storage_over(data, 5, 8).reader();
    assert_eq!(reader.seek(SeekFrom::End(-1)), Ok(2));
    assert_eq!(reader.seek(SeekFrom::Current(-2)), Ok(0));
    assert_eq!(reader.seek(SeekFrom::Current(1)), Ok(1));
    assert_eq!(reader.read(1), Ok(vec![6u8]));
}

#[test]
fn reader_seek_past_region_end_reads_nothing() {
    let data: Vec<u8> = (0u8..20).collect();
    let mut reader = storage_over(data, 5, 8).reader();
    assert_eq!(reader.seek(SeekFrom::End(5)), Ok(8));
    assert_eq!(reader.read(4), Ok(Vec::new()));
}

#[test]
fn memory_file_resize_and_rewind() {
    let mut file = MemoryFile::new(b"abcdef".to_vec());
    file.set_len(3).unwrap();
    file.set_len(5).unwrap();
    file.seek_to(0).unwrap();
    assert_eq!(file.read_exact(5), Ok(vec![b'a', b'b', b'c', 0, 0]));
    assert_eq!(file.len(), Ok(5));
}

#[test]
fn storage_trait_opens_reader_and_writer() {
    let data: Vec<u8> = (0u8..10).collect();
    let storage = storage_over(data, 2, 6);
    let mut reader = Storage::reader(storage);
    assert_eq!(reader.read(2), Ok(vec![2u8, 3]));
    let data: Vec<u8> = (0u8..10).collect();
    let storage = storage_over(data, 2, 6);
    let mut writer = Storage::writer(storage);
    writer.write(b"....").unwrap();
    writer.flush().unwrap();
    let out = writer.into_storage().file.into_inner();
    assert_eq!(out, vec![0, 1, b'.', b'.', b'.', b'.', 6, 7, 8, 9]);
}
