use std::collections::BTreeMap;
use wally::{
    find_segments, Action, Error, OpenError, Replayed, Replayer, SegmentReader, Segments,
    WALOptions, WalEntry, WAL,
};

/// A directory in memory.
struct Directory {
    segments: BTreeMap<u32, Vec<u8>>,
    open: u32,
    checkpoint: Option<String>,
}

fn options(max_segment_size: u64, max_segment_count: usize) -> WALOptions {
    WALOptions { dir: b"/log".to_vec(), max_segment_size, max_segment_count }
}

fn create(max_segment_size: u64, max_segment_count: usize) -> (WAL, Directory) {
    let segments = find_segments(&vec![]);
    let wal = WAL::open(options(max_segment_size, max_segment_count), segments, vec![]);
    let directory =
        Directory { segments: BTreeMap::from([(0, vec![])]), open: 0, checkpoint: None };
    (wal.unwrap().unwrap(), directory)
}

fn reopen(directory: &Directory) -> Result<Option<WAL>, Error> {
    let names = directory.segments.keys().map(|id| format!("segment-{}", id).into_bytes());
    let segments = find_segments(&names.collect());
    let active = directory.segments[&segments.active].clone();
    WAL::open(options(50, 3), segments, active)
}

fn perform(directory: &mut Directory, wal: &WAL, action: &Action) {
    match action {
        Action::Sync => {}
        Action::RemoveSegment(id) => {
            directory.segments.remove(id).unwrap();
        }
        Action::OpenSegment(id) => {
            directory.segments.entry(*id).or_default();
            directory.open = *id;
        }
        Action::Append(bytes) => {
            directory.segments.get_mut(&directory.open).unwrap().extend(bytes);
        }
        Action::UpdateCheckpoint(details) => {
            let contents = wal.checkpoint_file().update(*details);
            directory.checkpoint = Some(String::from_utf8(contents).unwrap());
        }
    }
}

fn write(wal: &mut WAL, directory: &mut Directory, data: &[u8], is_checkpoint: bool) {
    let size = directory.segments[&directory.open].len() as u64;
    for action in wal.write_entry(data.to_vec(), is_checkpoint, size, 0) {
        perform(directory, wal, &action);
        wal.complete(&action);
    }
}

fn replay(wal: &WAL, directory: &Directory) -> Vec<(u32, Vec<u8>)> {
    let contents = directory.checkpoint.as_ref().unwrap();
    let details = wal.checkpoint_file().read(contents).unwrap();
    let segment = directory.segments[&details.0].clone();
    let mut replayer = Replayer::new(wal.dir().to_vec(), details, segment).unwrap();
    let mut entries = vec![];
    loop {
        match replayer.try_next().unwrap() {
            Replayed::Entry(entry) => entries.push((entry.lsn, entry.data)),
            Replayed::NextSegment(id) => {
                if !enter(&mut replayer, directory.segments.get(&id).cloned()) {
                    return entries;
                }
            }
        }
    }
}

fn enter(replayer: &mut Replayer, segment: Option<Vec<u8>>) -> bool {
    let opened: Result<Vec<u8>, OpenError<()>> = match segment {
        Some(segment) => Ok(segment),
        None => Err(OpenError::NotFound),
    };
    replayer.enter_next_segment(opened).unwrap()
}

fn frame(lsn: u32, is_checkpoint: bool, data: &[u8]) -> Vec<u8> {
    WalEntry { lsn, is_checkpoint, crc: crc32fast::hash(data), data: data.to_vec() }.frame()
}

fn describe(actions: &[Action]) -> Vec<String> {
    actions.iter().map(|action| format!("{:?}", action)).collect()
}

fn no_segments() -> Segments {
    Segments { preexist: false, oldest: 0, active: 0 }
}

#[test]
fn new_log_starts_at_zero() {
    let wal = WAL::open(options(50, 3), no_segments(), vec![]).unwrap().unwrap();
    assert_eq!(wal.active_segment_id(), 0);
    assert_eq!(wal.next_entry_lsn(), 0);
    assert_eq!(wal.dir(), b"/log");
    assert_eq!(wal.checkpoint_file().path(), b"/log/.checkpoint");
}

#[test]
fn opened_log_goes_on_behind_the_last_entry() {
    let segments = Segments { preexist: true, oldest: 3, active: 5 };
    let mut active = frame(40, false, b"a");
    active.extend(frame(41, false, b"b"));
    let wal = WAL::open(options(50, 3), segments, active).unwrap().unwrap();
    assert_eq!(wal.active_segment_id(), 5);
    assert_eq!(wal.next_entry_lsn(), 42);
}

#[test]
fn log_with_an_empty_active_segment_cannot_be_opened() {
    let segments = Segments { preexist: true, oldest: 3, active: 5 };
    assert!(matches!(
        WAL::open(options(50, 3), segments, vec![]),
        Err(Error::UnexpectedEof)
    ));
}

#[test]
fn log_with_a_corrupted_last_entry_cannot_be_opened() {
    let segments = Segments { preexist: true, oldest: 3, active: 5 };
    let entry = WalEntry { lsn: 9, is_checkpoint: false, crc: 1, data: b"a".to_vec() };
    assert!(matches!(
        WAL::open(options(50, 3), segments, entry.frame()),
        Err(Error::CorruptedWALEntry { lsn: 9 })
    ));
    assert!(matches!(
        WAL::open(options(50, 3), segments, vec![1, 0, 0, 0, 8]),
        Err(Error::Decode(_))
    ));
}

#[test]
fn log_without_an_lsn_left_cannot_be_opened() {
    let segments = Segments { preexist: true, oldest: 3, active: 5 };
    let last = frame(u32::MAX, false, b"a");
    assert!(WAL::open(options(50, 3), segments, last).unwrap().is_none());
    let last = frame(u32::MAX - 1, false, b"a");
    let wal = WAL::open(options(50, 3), segments, last).unwrap().unwrap();
    assert_eq!(wal.next_entry_lsn(), u32::MAX);
}

#[test]
fn last_entry_decides_the_next_lsn() {
    let segments = Segments { preexist: true, oldest: 0, active: 0 };
    let last = WalEntry { lsn: 9, is_checkpoint: false, crc: 0, data: vec![] };
    assert_eq!(WAL::new(options(50, 3), segments, Some(last)).next_entry_lsn(), 10);
    assert_eq!(WAL::new(options(50, 3), no_segments(), None).next_entry_lsn(), 0);
}

#[test]
fn rotation_is_required_at_the_maximum_size() {
    let wal = WAL::new(options(50, 3), no_segments(), None);
    assert!(!wal.must_rotate(49, 0));
    assert!(wal.must_rotate(50, 0));
    assert!(wal.must_rotate(30, 20));
    assert!(!wal.must_rotate(29, 20));
    assert!(wal.must_rotate(0, 50));
    assert!(wal.must_rotate(u64::MAX, 0));
    assert_eq!(describe(&wal.rotate_if_required(29, 20)), describe(&[]));
    assert_eq!(describe(&wal.rotate_if_required(30, 20)), describe(&wal.rotate()));
    assert_eq!(wal.rotate().len(), 2);
}

#[test]
fn entry_is_appended() {
    let wal = WAL::new(options(50, 3), no_segments(), None);
    let actions = wal.write_entry(b"123456789".to_vec(), false, 0, 0);
    assert_eq!(actions.len(), 1);
    // No LSN, since it is 0; the CRC32 checksum 0xcbf43926; nine bytes of data.
    let expected = b"\x11\0\0\0\x18\xa6\xf2\xd0\xdf\x0c\x22\x09123456789";
    assert!(matches!(&actions[0], Action::Append(bytes) if bytes == expected));
}

#[test]
fn checkpoint_is_synced_before_the_file_tells_of_it() {
    let segments = Segments { preexist: true, oldest: 2, active: 2 };
    let last = WalEntry { lsn: 6, is_checkpoint: false, crc: 0, data: vec![] };
    let wal = WAL::new(options(50, 3), segments, Some(last));
    let actions = wal.write_entry(b"data".to_vec(), true, 10, 0);
    let append = Action::Append(frame(7, true, b"data"));
    assert_eq!(
        describe(&actions),
        describe(&[append, Action::Sync, Action::UpdateCheckpoint((2, 7))])
    );
}

#[test]
fn full_segment_is_replaced() {
    let segments = Segments { preexist: true, oldest: 2, active: 3 };
    let last = WalEntry { lsn: 6, is_checkpoint: false, crc: 0, data: vec![] };
    let wal = WAL::new(options(50, 3), segments, Some(last));
    let actions = wal.write_entry(b"data".to_vec(), true, 40, 10);
    let append = Action::Append(frame(7, true, b"data"));
    assert_eq!(
        describe(&actions),
        describe(&[
            Action::Sync,
            Action::OpenSegment(4),
            append,
            Action::Sync,
            Action::UpdateCheckpoint((4, 7))
        ])
    );
}

#[test]
fn oldest_segment_is_deleted_where_there_would_be_too_many() {
    let segments = Segments { preexist: true, oldest: 2, active: 4 };
    let wal = WAL::new(options(50, 3), segments, None);
    let removal = [Action::Sync, Action::RemoveSegment(2), Action::OpenSegment(5)];
    assert_eq!(describe(&wal.rotate()), describe(&removal));
    let wal = WAL::new(options(50, 4), segments, None);
    assert_eq!(describe(&wal.rotate()), describe(&[Action::Sync, Action::OpenSegment(5)]));
}

#[test]
fn only_segment_is_replaced_where_one_is_all_there_can_be() {
    let removal = [Action::Sync, Action::RemoveSegment(0), Action::OpenSegment(1)];
    for max_segment_count in [0, 1] {
        let wal = WAL::new(options(50, max_segment_count), no_segments(), None);
        assert_eq!(describe(&wal.rotate()), describe(&removal));
    }
}

#[test]
fn state_follows_the_steps() {
    let segments = Segments { preexist: true, oldest: 2, active: 4 };
    let mut wal = WAL::new(options(50, 3), segments, None);
    wal.complete(&Action::Sync);
    assert_eq!((wal.active_segment_id(), wal.next_entry_lsn()), (4, 0));
    wal.complete(&Action::RemoveSegment(2));
    assert_eq!(wal.active_segment_id(), 4);
    let opens = [Action::Sync, Action::OpenSegment(5)];
    assert_eq!(describe(&wal.rotate()), describe(&opens));
    wal.complete(&Action::OpenSegment(5));
    assert_eq!((wal.active_segment_id(), wal.next_entry_lsn()), (5, 0));
    wal.complete(&Action::Append(vec![]));
    assert_eq!((wal.active_segment_id(), wal.next_entry_lsn()), (5, 1));
    wal.complete(&Action::UpdateCheckpoint((5, 0)));
    assert_eq!((wal.active_segment_id(), wal.next_entry_lsn()), (5, 1));
    let removal = [Action::Sync, Action::RemoveSegment(3), Action::OpenSegment(6)];
    assert_eq!(describe(&wal.rotate()), describe(&removal));
}

#[test]
fn written_entries_are_replayed() {
    let (mut wal, mut directory) = create(50, 100);
    for i in 0..10u8 {
        write(&mut wal, &mut directory, &[i; 10], false);
    }
    write(&mut wal, &mut directory, b"checkpoint", true);
    assert_eq!(replay(&wal, &directory), vec![]);
    for i in 0..30u8 {
        write(&mut wal, &mut directory, &vec![i; i as usize], false);
    }
    let expected: Vec<(u32, Vec<u8>)> =
        (0..30u8).map(|i| (11 + i as u32, vec![i; i as usize])).collect();
    assert_eq!(replay(&wal, &directory), expected);
    assert!(directory.segments.len() > 10);
    assert_eq!(wal.next_entry_lsn(), 41);
}

#[test]
fn written_entry_is_the_last_of_the_active_segment() {
    let (mut wal, mut directory) = create(50, 3);
    for i in 0..25u8 {
        write(&mut wal, &mut directory, &[i; 12], i % 10 == 9);
        let active = directory.segments[&wal.active_segment_id()].clone();
        let last = wally::get_last_entry_in_segment(active).unwrap();
        assert_eq!((last.lsn, last.is_checkpoint), (i as u32, i % 10 == 9));
        assert_eq!(last.data, vec![i; 12]);
    }
}

#[test]
fn written_contents_stay() {
    let (mut wal, mut directory) = create(50, 4);
    for i in 0..30u8 {
        let before = directory.segments.clone();
        write(&mut wal, &mut directory, &[i; 12], i % 4 == 3);
        for (id, segment) in before {
            match directory.segments.get(&id) {
                Some(grown) => assert!(grown.starts_with(&segment)),
                None => assert!(directory.segments.keys().all(|left| *left > id)),
            }
        }
    }
}

#[test]
fn segment_is_synced_before_the_next_is_written_to() {
    let (mut wal, mut directory) = create(50, 4);
    let mut synced = true;
    for i in 0..30u8 {
        let size = directory.segments[&directory.open].len() as u64;
        let is_checkpoint = i % 7 == 6;
        for action in wal.write_entry(vec![i; 12], is_checkpoint, size, 0) {
            match action {
                Action::Sync => synced = true,
                Action::Append(_) => synced = false,
                _ => assert!(synced),
            }
            perform(&mut directory, &wal, &action);
            wal.complete(&action);
        }
        assert_eq!(synced, is_checkpoint);
    }
}

#[test]
fn latest_checkpoint_counts() {
    let (mut wal, mut directory) = create(50, 100);
    write(&mut wal, &mut directory, b"first", true);
    assert_eq!(directory.checkpoint.as_deref(), Some("0:0"));
    write(&mut wal, &mut directory, b"a", false);
    write(&mut wal, &mut directory, b"second", true);
    assert_eq!(directory.checkpoint.as_deref(), Some("0:2"));
    write(&mut wal, &mut directory, b"b", false);
    assert_eq!(replay(&wal, &directory), vec![(3, b"b".to_vec())]);
}

#[test]
fn segment_count_stays_within_its_maximum() {
    for max_segment_count in 1..5 {
        let (mut wal, mut directory) = create(20, max_segment_count);
        for i in 0..40u8 {
            write(&mut wal, &mut directory, &[i; 8], i % 3 == 0);
            assert!(directory.segments.len() <= max_segment_count);
        }
        assert_eq!(directory.segments.len(), max_segment_count);
    }
}

#[test]
fn reopened_log_goes_on_where_it_was_left() {
    let (mut wal, mut directory) = create(50, 3);
    for i in 0..25u8 {
        write(&mut wal, &mut directory, &[i; 12], i % 10 == 9);
        let reopened = reopen(&directory).unwrap().unwrap();
        assert_eq!(reopened.active_segment_id(), wal.active_segment_id());
        assert_eq!(reopened.next_entry_lsn(), wal.next_entry_lsn());
        assert_eq!(reopened.next_entry_lsn(), i as u32 + 1);
        assert_eq!(describe(&reopened.rotate()), describe(&wal.rotate()));
    }
}

#[test]
fn lsns_increase_by_one() {
    let (mut wal, mut directory) = create(50, 100);
    for i in 0..20u8 {
        write(&mut wal, &mut directory, &[i; 12], false);
    }
    let mut lsns = vec![];
    for segment in directory.segments.values() {
        let mut reader = SegmentReader::new(segment.clone());
        while !reader.at_end() {
            lsns.push(wally::read_entry(&mut reader).unwrap().lsn);
        }
    }
    assert_eq!(lsns, (0..20).collect::<Vec<u32>>());
}

#[test]
fn checkpoint_survives_the_loss_of_what_follows() {
    let (mut wal, mut directory) = create(1000, 100);
    write(&mut wal, &mut directory, b"before", false);
    write(&mut wal, &mut directory, b"checkpoint", true);
    let durable = directory.segments[&0].len();
    write(&mut wal, &mut directory, b"after", false);
    let segment = directory.segments[&0].clone();
    for len in durable..=segment.len() {
        let left = segment[..len].to_vec();
        let mut replayer = Replayer::new(b"/log".to_vec(), (0, 1), left).unwrap();
        if len == durable {
            assert!(replayer.at_end());
            assert!(matches!(replayer.try_next(), Ok(Replayed::NextSegment(1))));
        } else if len == segment.len() {
            assert!(matches!(replayer.try_next(), Ok(Replayed::Entry(entry)) if entry.lsn == 2));
        } else {
            assert!(matches!(replayer.try_next(), Err(Error::UnexpectedEof)));
        }
    }
}

#[test]
fn replay_after_a_crash_gives_what_is_left_whole() {
    let (mut wal, mut directory) = create(70, 100);
    write(&mut wal, &mut directory, b"checkpoint", true);
    for i in 0..8u8 {
        write(&mut wal, &mut directory, &[i; 12], false);
    }
    let all = replay(&wal, &directory);
    assert_eq!(all.len(), 8);
    let active = directory.segments[&directory.open].clone();
    let entries_in = |bytes: &[u8]| {
        let mut reader = SegmentReader::new(bytes.to_vec());
        let mut count: usize = 0;
        while !reader.at_end() {
            match wally::read_entry(&mut reader) {
                Ok(_) => count += 1,
                Err(_) => return (count, true),
            }
        }
        (count, false)
    };
    let (whole, _) = entries_in(&active);
    assert!(whole > 1);
    for len in 0..=active.len() {
        let (left, torn) = entries_in(&active[..len]);
        let mut segments = directory.segments.clone();
        segments.insert(directory.open, active[..len].to_vec());
        let first = segments[&0].clone();
        let mut replayer = Replayer::new(b"/log".to_vec(), (0, 0), first).unwrap();
        let mut entries = vec![];
        let mut faults: usize = 0;
        loop {
            match replayer.try_next() {
                Ok(Replayed::Entry(entry)) => entries.push((entry.lsn, entry.data)),
                Ok(Replayed::NextSegment(id)) => {
                    if !enter(&mut replayer, segments.get(&id).cloned()) {
                        break;
                    }
                }
                Err(error) => {
                    assert!(matches!(error, Error::UnexpectedEof));
                    faults += 1;
                }
            }
        }
        assert_eq!(entries, all[..all.len() - (whole - left)]);
        assert_eq!(faults, if torn { 1 } else { 0 });
    }
}

#[test]
fn segment_passes_the_maximum_size_by_its_last_entry_only() {
    let (mut wal, mut directory) = create(50, 100);
    for i in 0..40u8 {
        write(&mut wal, &mut directory, &vec![i; 3 * i as usize], i % 7 == 6);
    }
    assert!(directory.segments.len() > 10);
    for (id, segment) in &directory.segments {
        assert!(*id == directory.open || segment.len() >= 50);
        let mut reader = SegmentReader::new(segment.clone());
        let mut size: usize = 0;
        while !reader.at_end() {
            assert!(size < 50);
            size += wally::read_entry(&mut reader).unwrap().frame().len();
        }
        assert_eq!(size, segment.len());
    }
}

#[test]
fn replay_needs_the_checkpoint() {
    let segment = [frame(3, false, b"a"), frame(4, true, b"b")].concat();
    assert!(Replayer::new(b"/log".to_vec(), (0, 4), segment.clone()).is_ok());
    assert!(matches!(
        Replayer::new(b"/log".to_vec(), (0, 5), segment.clone()),
        Err(Error::UnexpectedEof)
    ));
    assert!(matches!(
        Replayer::new(b"/log".to_vec(), (0, 0), vec![]),
        Err(Error::UnexpectedEof)
    ));
    let corrupted = WalEntry { lsn: 3, is_checkpoint: false, crc: 1, data: b"a".to_vec() };
    let segment = [corrupted.frame(), frame(4, true, b"b")].concat();
    assert!(matches!(
        Replayer::new(b"/log".to_vec(), (0, 4), segment),
        Err(Error::CorruptedWALEntry { lsn: 3 })
    ));
    assert!(matches!(
        Replayer::new(b"/log".to_vec(), (0, 4), vec![1, 0, 0, 0, 8]),
        Err(Error::Decode(_))
    ));
}

#[test]
fn replay_goes_from_segment_to_segment() {
    let first = [frame(3, true, b"a"), frame(4, false, b"b")].concat();
    let mut replayer = Replayer::new(b"/log".to_vec(), (7, 3), first).unwrap();
    assert_eq!(replayer.segment_path(8), b"/log/segment-8".to_vec());
    assert_eq!(replayer.current_segment_id(), 7);
    assert!(matches!(replayer.try_next(), Ok(Replayed::Entry(entry)) if entry.lsn == 4));
    assert!(matches!(replayer.try_next(), Ok(Replayed::NextSegment(8))));
    assert!(matches!(replayer.try_next(), Ok(Replayed::NextSegment(8))));
    assert!(!enter(&mut replayer, None));
    assert_eq!(replayer.current_segment_id(), 7);
    let failed: Result<Vec<u8>, OpenError<&str>> = Err(OpenError::Other("no access"));
    assert_eq!(replayer.enter_next_segment(failed), Err("no access"));
    assert_eq!(replayer.current_segment_id(), 7);
    assert!(replayer.at_end());
    assert!(matches!(replayer.try_next(), Ok(Replayed::NextSegment(8))));
    assert!(enter(&mut replayer, Some(vec![])));
    assert_eq!(replayer.current_segment_id(), 8);
    assert!(matches!(replayer.try_next(), Ok(Replayed::NextSegment(9))));
    replayer.extend(&frame(5, false, b"c"));
    assert!(matches!(replayer.try_next(), Ok(Replayed::Entry(entry)) if entry.lsn == 5));
    assert!(replayer.at_end());
}

#[test]
fn replay_goes_on_behind_a_corrupted_entry() {
    let corrupted = WalEntry { lsn: 4, is_checkpoint: false, crc: 1, data: b"a".to_vec() };
    let segment = [frame(3, true, b"a"), corrupted.frame(), frame(5, false, b"c")].concat();
    let mut replayer = Replayer::new(b"/log".to_vec(), (7, 3), segment).unwrap();
    assert!(matches!(replayer.try_next(), Err(Error::CorruptedWALEntry { lsn: 4 })));
    assert!(matches!(replayer.try_next(), Ok(Replayed::Entry(entry)) if entry.lsn == 5));
}
