use wally::{
    get_last_entry_in_segment, read_entry, read_entry_encoding_size, Error, SegmentReader, WalEntry,
};

fn intact(lsn: u32, data: &[u8]) -> WalEntry {
    WalEntry { lsn, is_checkpoint: false, crc: crc32fast::hash(data), data: data.to_vec() }
}

fn corrupted(lsn: u32, data: &[u8]) -> WalEntry {
    WalEntry { lsn, is_checkpoint: false, crc: !crc32fast::hash(data), data: data.to_vec() }
}

fn segment(entries: &[WalEntry]) -> Vec<u8> {
    entries.iter().flat_map(|entry| entry.frame()).collect()
}

#[test]
fn frame_is_the_encoding_behind_its_size() {
    let entry = WalEntry { lsn: 1, is_checkpoint: true, crc: 5, data: vec![0xaa] };
    assert_eq!(entry.frame(), vec![9, 0, 0, 0, 8, 1, 16, 1, 24, 5, 34, 1, 0xaa]);
    let long = WalEntry { lsn: 0, is_checkpoint: false, crc: 0, data: vec![1; 70000] };
    let size = long.encoded_len() as u32;
    assert_eq!(size, 70004);
    assert_eq!(long.frame()[..4], size.to_le_bytes());
    assert_eq!(long.frame().len(), 70008);
}

#[test]
fn sizes_are_little_endian() {
    let mut reader = SegmentReader::new(vec![0x78, 0x56, 0x34, 0x12, 9]);
    assert_eq!(read_entry_encoding_size(&mut reader).unwrap(), 0x12345678);
    assert!(!reader.at_end());
    let mut reader = SegmentReader::new(vec![0xff, 0xff, 0xff, 0xff]);
    assert_eq!(read_entry_encoding_size(&mut reader).unwrap(), u32::MAX);
    assert!(reader.at_end());
}

#[test]
fn size_that_is_cut_short() {
    let mut reader = SegmentReader::new(vec![1, 0, 0]);
    assert!(matches!(read_entry_encoding_size(&mut reader), Err(Error::UnexpectedEof)));
    assert!(reader.at_end());
}

#[test]
fn entries_are_read_in_order() {
    let mut reader = SegmentReader::new(segment(&[intact(4, b"a"), intact(5, b""), intact(6, b"ccc")]));
    assert_eq!(read_entry(&mut reader).unwrap().data, b"a".to_vec());
    let second = read_entry(&mut reader).unwrap();
    assert_eq!((second.lsn, second.data), (5, vec![]));
    assert!(!reader.at_end());
    let third = read_entry(&mut reader).unwrap();
    assert_eq!((third.lsn, third.data), (6, b"ccc".to_vec()));
    assert!(reader.at_end());
    assert!(matches!(read_entry(&mut reader), Err(Error::UnexpectedEof)));
}

#[test]
fn entry_that_is_cut_short() {
    let whole = segment(&[intact(4, b"abc")]);
    for len in 0..whole.len() {
        let mut reader = SegmentReader::new(whole[..len].to_vec());
        assert!(matches!(read_entry(&mut reader), Err(Error::UnexpectedEof)));
        assert!(reader.at_end());
    }
}

#[test]
fn reading_goes_on_behind_a_corrupted_entry() {
    let mut reader = SegmentReader::new(segment(&[corrupted(4, b"a"), intact(5, b"b")]));
    assert!(matches!(read_entry(&mut reader), Err(Error::CorruptedWALEntry { lsn: 4 })));
    assert_eq!(read_entry(&mut reader).unwrap().lsn, 5);
}

#[test]
fn reading_goes_on_behind_malformed_bytes() {
    let mut bytes = vec![1, 0, 0, 0, 8];
    bytes.extend(segment(&[intact(5, b"b")]));
    let mut reader = SegmentReader::new(bytes);
    assert!(matches!(read_entry(&mut reader), Err(Error::Decode(_))));
    assert_eq!(read_entry(&mut reader).unwrap().lsn, 5);
}

#[test]
fn segments_may_grow_while_they_are_read() {
    let mut reader = SegmentReader::new(segment(&[intact(4, b"a")]));
    read_entry(&mut reader).unwrap();
    assert!(reader.at_end());
    let appended = intact(5, b"b").frame();
    reader.extend(&appended);
    assert!(!reader.at_end());
    assert_eq!(read_entry(&mut reader).unwrap().lsn, 5);
}

#[test]
fn last_entry_of_a_segment() {
    let one = segment(&[intact(4, b"a")]);
    assert_eq!(get_last_entry_in_segment(one).unwrap().lsn, 4);
    let three = segment(&[intact(4, b"a"), intact(5, b"bb"), intact(6, b"")]);
    let last = get_last_entry_in_segment(three).unwrap();
    assert_eq!((last.lsn, last.data), (6, vec![]));
}

#[test]
fn last_entry_of_an_empty_segment() {
    assert!(matches!(get_last_entry_in_segment(vec![]), Err(Error::UnexpectedEof)));
}

#[test]
fn last_entry_that_is_cut_short() {
    let mut bytes = segment(&[intact(4, b"a"), intact(5, b"b")]);
    bytes.pop();
    assert!(matches!(get_last_entry_in_segment(bytes), Err(Error::UnexpectedEof)));
    let mut bytes = segment(&[intact(4, b"a")]);
    bytes.extend([1, 0]);
    assert!(matches!(get_last_entry_in_segment(bytes), Err(Error::UnexpectedEof)));
}

#[test]
fn last_entry_that_is_corrupted() {
    let bytes = segment(&[intact(4, b"a"), corrupted(5, b"b")]);
    assert!(matches!(
        get_last_entry_in_segment(bytes),
        Err(Error::CorruptedWALEntry { lsn: 5 })
    ));
    let bytes = segment(&[corrupted(4, b"a"), intact(5, b"b")]);
    assert_eq!(get_last_entry_in_segment(bytes).unwrap().lsn, 5);
}

#[test]
fn last_entry_that_is_malformed() {
    let mut bytes = segment(&[intact(4, b"a")]);
    bytes.extend([1, 0, 0, 0, 8]);
    assert!(matches!(get_last_entry_in_segment(bytes), Err(Error::Decode(_))));
}
