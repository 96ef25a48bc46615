use wally::{
    find_segments, parse_segment_name, segment_path, CheckpointFile, Error, Segments, WALOptions,
    CHECKPOINT_FILE_NAME, SEGMENT_NAME_PREFIX,
};

fn read(contents: &str) -> Result<(u32, u32), Error> {
    CheckpointFile::new(b"/log").read(contents)
}

fn is_invalid(contents: &str) -> bool {
    matches!(read(contents), Err(Error::InvalidCheckpointFile))
}

fn names(names: &[&str]) -> Vec<Vec<u8>> {
    names.iter().map(|name| name.as_bytes().to_vec()).collect()
}

fn found(file_names: &[&str]) -> (bool, u32, u32) {
    let Segments { preexist, oldest, active } = find_segments(&names(file_names));
    (preexist, oldest, active)
}

#[test]
fn default_options() {
    let options = WALOptions::default();
    assert_eq!(options.dir, b"~/.dropdb-rusty/wal".to_vec());
    assert_eq!(options.max_segment_size, 16384);
    assert_eq!(options.max_segment_count, 1000);
}

#[test]
fn checkpoint_file_lies_in_the_directory() {
    assert_eq!(CHECKPOINT_FILE_NAME, ".checkpoint");
    assert_eq!(CheckpointFile::new(b"/var/log").path(), b"/var/log/.checkpoint");
    assert_eq!(CheckpointFile::new(b"/var/log/").path(), b"/var/log/.checkpoint");
    assert_eq!(CheckpointFile::new(b"/").path(), b"/.checkpoint");
    assert_eq!(CheckpointFile::new(b"").path(), b".checkpoint");
    assert_eq!(CheckpointFile::new(&[0xff]).path(), &[&[0xff][..], b"/.checkpoint"].concat()[..]);
}

#[test]
fn paths_are_joined_as_the_standard_library_joins_them() {
    for dir in ["", "/", "a", "a/", "a//", "/a/b", "~/wal", "."] {
        let expected = std::path::Path::new(dir).join(".checkpoint");
        let path = CheckpointFile::new(dir.as_bytes()).path().to_vec();
        assert_eq!(String::from_utf8(path).unwrap(), expected.to_str().unwrap());
        let expected = std::path::Path::new(dir).join("segment-12");
        let path = segment_path(dir.as_bytes(), 12);
        assert_eq!(String::from_utf8(path).unwrap(), expected.to_str().unwrap());
    }
}

#[test]
fn checkpoint_file_holds_segment_and_lsn() {
    let file = CheckpointFile::new(b"/log");
    assert_eq!(file.update((3, 41)), b"3:41".to_vec());
    assert_eq!(file.update((0, 0)), b"0:0".to_vec());
    assert_eq!(file.update((u32::MAX, 10)), b"4294967295:10".to_vec());
}

#[test]
fn reading_gives_what_was_updated() {
    let file = CheckpointFile::new(b"/log");
    for details in [(0, 0), (1, 2), (10, 99), (12345, u32::MAX), (u32::MAX, 0)] {
        let contents = String::from_utf8(file.update(details)).unwrap();
        assert_eq!(file.read(&contents).unwrap(), details);
    }
}

#[test]
fn white_space_around_the_details_does_not_matter() {
    assert_eq!(read(" 3:41\n").unwrap(), (3, 41));
    assert_eq!(read("\u{a0}\u{2003}3:41\u{3000}\t\r\n").unwrap(), (3, 41));
    assert!(is_invalid("3 :41"));
    assert!(is_invalid("3: 41"));
}

#[test]
fn numbers_may_have_a_sign_and_leading_zeros() {
    assert_eq!(read("+3:041").unwrap(), (3, 41));
    assert_eq!(read("0000000000000004294967295:0").unwrap(), (u32::MAX, 0));
}

#[test]
fn other_contents_are_invalid() {
    for contents in [
        "", "\n", "5", ":", "5:", ":5", "a:1", "1:b", "1:2:3", "-1:2", "1:-2", "++1:2", "+:1",
        "4294967296:1", "1:4294967296", "99999999999999999999999:1", "1;2", "\u{661}:1", "1_0:2",
    ] {
        assert!(is_invalid(contents), "{:?}", contents);
    }
}

#[test]
fn numbers_are_read_as_the_standard_library_reads_them() {
    for number in [
        "0", "7", "+7", "007", "", "+", "-", "-7", "+-7", "7+", " 7", "7 ", "4294967295",
        "4294967296", "42949672950", "0x7", "1e3", "\u{ff17}", "+00000000000000000000001",
    ] {
        let name = [SEGMENT_NAME_PREFIX, number].concat();
        assert_eq!(parse_segment_name(name.as_bytes()), number.parse::<u32>().ok(), "{}", number);
    }
}

#[test]
fn names_of_segments() {
    assert_eq!(segment_path(b"/log", 0), b"/log/segment-0".to_vec());
    assert_eq!(segment_path(b"/log/", 120), b"/log/segment-120".to_vec());
    assert_eq!(segment_path(b"", u32::MAX), b"segment-4294967295".to_vec());
}

#[test]
fn names_of_segments_tell_their_ids() {
    for id in [0, 9, 10, 1000, u32::MAX] {
        let path = segment_path(b"", id);
        assert_eq!(parse_segment_name(&path), Some(id));
    }
}

#[test]
fn segments_have_different_paths() {
    let mut paths: Vec<Vec<u8>> = (0..500).map(|id| segment_path(b"dir", id)).collect();
    paths.sort();
    paths.dedup();
    assert_eq!(paths.len(), 500);
}

#[test]
fn names_of_other_files() {
    for name in ["", "segment", "segment-", "Segment-1", "segment_1", ".checkpoint", "1", "asegment-1"] {
        assert_eq!(parse_segment_name(name.as_bytes()), None, "{}", name);
    }
    assert_eq!(parse_segment_name(b"segment-1\xff"), None);
}

#[test]
fn no_segments_are_found_in_an_empty_directory() {
    assert_eq!(found(&[]), (false, 0, 0));
    assert_eq!(found(&[".checkpoint", "segment-x"]), (false, 0, 0));
}

#[test]
fn oldest_and_latest_segment_are_found() {
    assert_eq!(found(&["segment-7"]), (true, 7, 7));
    assert_eq!(found(&["segment-7", ".checkpoint", "segment-3", "segment-12"]), (true, 3, 12));
    assert_eq!(found(&["segment-10", "segment-9", "segment-8"]), (true, 8, 10));
    assert_eq!(found(&["segment-0"]), (true, 0, 0));
}
