//! The write-ahead log.
//!
//! The log appends to one segment, the active one. Once that has grown to its maximum size, a new
//! segment takes its place, and the oldest goes if there would be too many.
//!
//! Nothing here touches a disk. `WAL::write_entry` says what there is to do to write an entry, and
//! `WAL::complete` is told of each step that has been done.

use vstd::prelude::*;

use crate::checkpoint_file::{CheckpointFile, LatestCheckpointDetails};
use crate::entry::{crc32, decoded, EntryView, WalEntry, MAX_ENCODING_OVERHEAD};
use crate::error::Error;
use crate::files::{parse_segment_name, segment_id_of, SegmentID, CHECKPOINT_FILE_NAME, LSN};
use crate::segment::{get_last_entry_in_segment, last_entry};
use crate::text::{ascii, ascii_bytes};

verus! {

/// Size of a segment, in bytes.
pub type SegmentSize = u64;

/// The directory that a log is kept in by default.
pub const DEFAULT_DIR: &'static str = "~/.dropdb-rusty/wal";

/// The size that a segment may grow to by default: 16 KB.
pub const DEFAULT_MAX_SEGMENT_SIZE: SegmentSize = 16 * 1024;

/// How many segments there may be by default.
pub const DEFAULT_MAX_SEGMENT_COUNT: usize = 1000;

/// How a log is to be kept.
#[derive(Debug)]
pub struct WALOptions {
    /// The directory where segments are stored.
    pub dir: Vec<u8>,
    /// Maximum byte size a segment can grow to.
    pub max_segment_size: SegmentSize,
    /// Maximum number of segments there can be.
    pub max_segment_count: usize,
}

impl Default for WALOptions {
    fn default() -> (options: WALOptions)
        ensures
            options.dir@ == ascii(DEFAULT_DIR@),
            options.max_segment_size == DEFAULT_MAX_SEGMENT_SIZE,
            options.max_segment_count == DEFAULT_MAX_SEGMENT_COUNT,
            options.dir@ == ascii("~/.dropdb-rusty/wal"@),
            options.max_segment_size == 16384,
            options.max_segment_count == 1000,
    {
        proof {
            reveal_strlit("~/.dropdb-rusty/wal");
        }
        let mut dir: Vec<u8> = Vec::new();
        dir.extend_from_slice(ascii_bytes(DEFAULT_DIR));
        assert(dir@ =~= ascii(DEFAULT_DIR@));
        WALOptions {
            dir,
            max_segment_size: DEFAULT_MAX_SEGMENT_SIZE,
            max_segment_count: DEFAULT_MAX_SEGMENT_COUNT,
        }
    }
}

/// The segments that a directory holds when a log is opened in it.
#[derive(Debug, Clone, Copy)]
pub struct Segments {
    /// Whether there are any.
    pub preexist: bool,
    /// ID of the oldest segment, 0 if there is none.
    pub oldest: SegmentID,
    /// ID of the segment that entries will be appended to: the latest, 0 if there is none.
    pub active: SegmentID,
}

/// Whether one of the files is the segment with the given ID.
pub open spec fn lists_segment(file_names: Seq<Vec<u8>>, segment_id: SegmentID) -> bool {
    exists|i: int|
        0 <= i < file_names.len() && segment_id_of((#[trigger] file_names[i])@) == Some(segment_id)
}

impl Segments {
    /// These are the segments among files of the given names.
    pub open spec fn found_in(self, file_names: Seq<Vec<u8>>) -> bool {
        if self.preexist {
            &&& lists_segment(file_names, self.oldest)
            &&& lists_segment(file_names, self.active)
            &&& forall|id: SegmentID| #[trigger]
                lists_segment(file_names, id) ==> self.oldest <= id <= self.active
        } else {
            &&& self.oldest == 0
            &&& self.active == 0
            &&& forall|id: SegmentID| !#[trigger] lists_segment(file_names, id)
        }
    }
}

/// Determines the oldest and the active segment from the names of the files in a directory.
pub fn find_segments(file_names: &Vec<Vec<u8>>) -> (segments: Segments)
    ensures
        segments.found_in(file_names@),
        segments.oldest <= segments.active,
        // Every segment lies between the oldest and the active one.
        forall|i: int|
            #![trigger file_names@[i]]
            0 <= i < file_names@.len() ==> (segment_id_of(file_names@[i]@) matches Some(id)
                ==> segments.preexist && segments.oldest <= id <= segments.active),
        // Both are there, unless there is none.
        segments.preexist ==> exists|i: int|
            0 <= i < file_names@.len() && segment_id_of((#[trigger] file_names@[i])@) == Some(
                segments.oldest,
            ),
        segments.preexist ==> exists|i: int|
            0 <= i < file_names@.len() && segment_id_of((#[trigger] file_names@[i])@) == Some(
                segments.active,
            ),
        !segments.preexist ==> segments.oldest == 0 && segments.active == 0,
{
    let mut segments = Segments { preexist: false, oldest: 0, active: 0 };
    let mut i: usize = 0;
    assert(segments.found_in(file_names@.take(0)));
    while i < file_names.len()
        invariant
            i <= file_names@.len(),
            segments.found_in(file_names@.take(i as int)),
            segments.oldest <= segments.active,
        decreases file_names@.len() - i,
    {
        let ghost before = file_names@.take(i as int);
        let ghost after = file_names@.take(i + 1);
        proof {
            assert(after[i as int] == file_names@[i as int]);
            assert forall|id: SegmentID| #[trigger]
                lists_segment(after, id) == (lists_segment(before, id) || segment_id_of(
                    file_names@[i as int]@,
                ) == Some(id)) by {
                if lists_segment(before, id) {
                    let j = choose|j: int|
                        0 <= j < before.len() && segment_id_of((#[trigger] before[j])@) == Some(id);
                    assert(after[j] == before[j]);
                }
                if lists_segment(after, id) {
                    let j = choose|j: int|
                        0 <= j < after.len() && segment_id_of((#[trigger] after[j])@) == Some(id);
                    if j < i {
                        assert(before[j] == after[j]);
                    }
                }
            }
        }
        match parse_segment_name(file_names[i].as_slice()) {
            Some(segment_id) => {
                proof {
                    assert(lists_segment(after, segment_id));
                }
                if !segments.preexist {
                    segments = Segments { preexist: true, oldest: segment_id, active: segment_id };
                } else if segment_id < segments.oldest {
                    segments.oldest = segment_id;
                } else if segment_id > segments.active {
                    segments.active = segment_id;
                }
            },
            None => {},
        }
        i = i + 1;
    }
    assert(file_names@.take(i as int) =~= file_names@);
    proof {
        law_found_segments(file_names@, segments);
    }
    segments
}

/// Something to be done to the files of the log.
#[derive(Debug)]
pub enum Action {
    /// Ensure that all changes to the active segment are persisted to disk.
    Sync,
    /// Delete the segment.
    RemoveSegment(SegmentID),
    /// Open the segment for appending, creating it if it doesn't exist.
    OpenSegment(SegmentID),
    /// Append the bytes to the segment that was opened last.
    Append(Vec<u8>),
    /// Replace the contents of the checkpoint file by these details.
    UpdateCheckpoint(LatestCheckpointDetails),
}

/// What an `Action` asks for.
pub enum Step {
    Sync,
    RemoveSegment(int),
    OpenSegment(int),
    Append(Seq<u8>),
    UpdateCheckpoint(LatestCheckpointDetails),
}

impl View for Action {
    type V = Step;

    open spec fn view(&self) -> Step {
        match *self {
            Action::Sync => Step::Sync,
            Action::RemoveSegment(id) => Step::RemoveSegment(id as int),
            Action::OpenSegment(id) => Step::OpenSegment(id as int),
            Action::Append(bytes) => Step::Append(bytes@),
            Action::UpdateCheckpoint(details) => Step::UpdateCheckpoint(details),
        }
    }
}

/// What a list of actions asks for.
pub open spec fn steps(actions: Seq<Action>) -> Seq<Step> {
    Seq::new(actions.len(), |i: int| actions[i]@)
}

/// The state of a log.
#[derive(Debug)]
pub struct WAL {
    /// The directory where segments are stored.
    dir: Vec<u8>,
    /// Where information about the latest checkpoint is stored.
    checkpoint_file: CheckpointFile,
    /// Maximum byte size a segment can grow to.
    max_segment_size: SegmentSize,
    /// Maximum number of segments there can be.
    max_segment_count: usize,
    /// ID of the oldest segment.
    oldest_segment_id: SegmentID,
    /// ID of the active segment, to which entries will currently be appended.
    active_segment_id: SegmentID,
    /// LSN of the next entry to be appended.
    next_entry_lsn: LSN,
}

/// What a `WAL` holds.
#[verifier::ext_equal]
pub struct WALView {
    pub dir: Seq<u8>,
    pub checkpoint_file: Seq<u8>,
    pub max_segment_size: int,
    pub max_segment_count: int,
    pub oldest_segment_id: int,
    pub active_segment_id: int,
    pub next_entry_lsn: int,
}

impl View for WAL {
    type V = WALView;

    closed spec fn view(&self) -> WALView {
        WALView {
            dir: self.dir@,
            checkpoint_file: self.checkpoint_file@,
            max_segment_size: self.max_segment_size as int,
            max_segment_count: self.max_segment_count as int,
            oldest_segment_id: self.oldest_segment_id as int,
            active_segment_id: self.active_segment_id as int,
            next_entry_lsn: self.next_entry_lsn as int,
        }
    }
}

/// The entry that holds `data`.
pub open spec fn entry_of(lsn: int, is_checkpoint: bool, data: Seq<u8>) -> EntryView {
    EntryView { lsn: lsn as u32, is_checkpoint, crc: crc32(data), data }
}

impl WALView {
    /// The active segment is the latest. (It is missing while it has been deleted as the oldest and
    /// the one that takes its place is still to be created.)
    pub open spec fn wf(self) -> bool {
        &&& 0 <= self.max_segment_count
        &&& 0 <= self.oldest_segment_id <= self.active_segment_id + 1
        &&& 0 <= self.active_segment_id <= u32::MAX
        &&& 0 <= self.next_entry_lsn <= u32::MAX
    }

    /// How many segments there are.
    pub open spec fn segment_count(self) -> int {
        self.active_segment_id - self.oldest_segment_id + 1
    }

    /// Whether an active segment of `size` bytes can grow no further.
    pub open spec fn must_rotate(self, size: int) -> bool {
        size >= self.max_segment_size
    }

    /// Whether there are as many segments as there can be, so that one more would be too many.
    pub open spec fn is_full(self) -> bool {
        self.segment_count() > 0 && self.segment_count() >= self.max_segment_count
    }

    /// How a new segment takes the place of the active one.
    pub open spec fn rotation(self) -> Seq<Step> {
        let removal = if self.is_full() {
            seq![Step::RemoveSegment(self.oldest_segment_id)]
        } else {
            seq![]
        };
        seq![Step::Sync] + removal + seq![Step::OpenSegment(self.active_segment_id + 1)]
    }

    /// How the log is rotated, if it has to be, when the active segment has `size` bytes.
    pub open spec fn required_rotation(self, size: int) -> Seq<Step> {
        if self.must_rotate(size) {
            self.rotation()
        } else {
            seq![]
        }
    }

    /// The segment that the next entry goes to when the active segment has `size` bytes.
    pub open spec fn target_segment(self, size: int) -> int {
        if self.must_rotate(size) {
            self.active_segment_id + 1
        } else {
            self.active_segment_id
        }
    }

    /// How an entry is appended to the segment with the given ID, and made the latest checkpoint if
    /// it is to be one.
    pub open spec fn append_steps(self, segment_id: int, data: Seq<u8>, is_checkpoint: bool) -> Seq<
        Step,
    > {
        let append = Step::Append(entry_of(self.next_entry_lsn, is_checkpoint, data).frame());
        let checkpoint = if is_checkpoint {
            seq![
                Step::Sync,
                Step::UpdateCheckpoint((segment_id as u32, self.next_entry_lsn as u32)),
            ]
        } else {
            seq![]
        };
        seq![append] + checkpoint
    }

    /// How an entry is written when the active segment has `size` bytes.
    pub open spec fn write_steps(self, size: int, data: Seq<u8>, is_checkpoint: bool) -> Seq<Step> {
        self.required_rotation(size) + self.append_steps(
            self.target_segment(size),
            data,
            is_checkpoint,
        )
    }

    /// Whether the step is one that can be done in this state.
    pub open spec fn accepts(self, step: Step) -> bool {
        match step {
            Step::RemoveSegment(id) => id == self.oldest_segment_id <= self.active_segment_id
                && id < u32::MAX,
            Step::OpenSegment(id) => id == self.active_segment_id + 1 <= u32::MAX,
            Step::Append(_) => self.next_entry_lsn < u32::MAX,
            _ => true,
        }
    }

    /// The state after the step has been done.
    pub open spec fn after(self, step: Step) -> WALView {
        match step {
            Step::RemoveSegment(id) => WALView { oldest_segment_id: id + 1, ..self },
            Step::OpenSegment(id) => WALView { active_segment_id: id, ..self },
            Step::Append(_) => WALView { next_entry_lsn: self.next_entry_lsn + 1, ..self },
            _ => self,
        }
    }

    /// The state of a log that has just been opened.
    pub open spec fn opened(
        options: WALOptions,
        segments: Segments,
        next_entry_lsn: int,
    ) -> WALView {
        WALView {
            dir: options.dir@,
            checkpoint_file: crate::files::joined(options.dir@, ascii(CHECKPOINT_FILE_NAME@)),
            max_segment_size: options.max_segment_size as int,
            max_segment_count: options.max_segment_count as int,
            oldest_segment_id: segments.oldest as int,
            active_segment_id: segments.active as int,
            next_entry_lsn,
        }
    }
}

impl WAL {
    /// The active segment is the latest, or missing while the one that takes its place is still to
    /// be created.
    #[verifier::type_invariant]
    spec fn active_is_latest(self) -> bool {
        self.oldest_segment_id <= self.active_segment_id + 1
    }

    /// Constructs a log over the segments that were found. The LSN of the next entry is one more
    /// than that of the last entry in the active segment, or 0 if there is none.
    pub fn new(options: WALOptions, segments: Segments, last_entry: Option<WalEntry>) -> (wal: WAL)
        requires
            segments.oldest <= segments.active,
            last_entry matches Some(entry) ==> entry.lsn < u32::MAX,
        ensures
            wal@ == WALView::opened(
                options,
                segments,
                match last_entry {
                    Some(entry) => entry.lsn + 1,
                    None => 0,
                },
            ),
            wal@.dir == options.dir@,
            wal@.max_segment_size == options.max_segment_size,
            wal@.max_segment_count == options.max_segment_count,
            wal@.oldest_segment_id == segments.oldest,
            wal@.active_segment_id == segments.active,
            last_entry is None ==> wal@.next_entry_lsn == 0,
            last_entry matches Some(entry) ==> wal@.next_entry_lsn == entry.lsn + 1,
            wal@.wf(),
    {
        let checkpoint_file = CheckpointFile::new(options.dir.as_slice());
        WAL {
            dir: options.dir,
            checkpoint_file,
            max_segment_size: options.max_segment_size,
            max_segment_count: options.max_segment_count,
            oldest_segment_id: segments.oldest,
            active_segment_id: segments.active,
            next_entry_lsn: match last_entry {
                Some(entry) => entry.lsn + 1,
                None => 0,
            },
        }
    }

    /// Opens a log over the segments that were found, the active one of which holds the given
    /// bytes. `None` if the last entry has the largest LSN there is.
    pub fn open(options: WALOptions, segments: Segments, active_segment: Vec<u8>) -> (r: Result<
        Option<WAL>,
        Error,
    >)
        requires
            segments.oldest <= segments.active,
        ensures
            if segments.preexist {
                match (r, last_entry(active_segment@)) {
                    (Ok(Some(wal)), Ok(entry)) => entry.lsn < u32::MAX && wal@
                        == WALView::opened(options, segments, entry.lsn + 1) && wal@.wf(),
                    (Ok(None), Ok(entry)) => entry.lsn == u32::MAX,
                    (Err(error), Err(fault)) => error@ == fault,
                    _ => false,
                }
            } else {
                &&& r matches Ok(Some(wal))
                &&& wal@ == WALView::opened(options, segments, 0)
                &&& wal@.wf()
            },
            r matches Ok(Some(wal)) ==> {
                &&& wal@.dir == options.dir@
                &&& wal@.max_segment_size == options.max_segment_size
                &&& wal@.max_segment_count == options.max_segment_count
                &&& wal@.oldest_segment_id == segments.oldest
                &&& wal@.active_segment_id == segments.active
                &&& !segments.preexist ==> wal@.next_entry_lsn == 0
                &&& segments.preexist ==> (last_entry(active_segment@) matches Ok(entry)
                    && wal@.next_entry_lsn == entry.lsn + 1)
            },
    {
        if !segments.preexist {
            return Ok(Some(WAL::new(options, segments, None)));
        }
        let last_entry = match get_last_entry_in_segment(active_segment) {
            Ok(entry) => entry,
            Err(error) => return Err(error),
        };
        if last_entry.lsn == u32::MAX {
            return Ok(None);
        }
        Ok(Some(WAL::new(options, segments, Some(last_entry))))
    }

    /// ID of the active segment.
    pub fn active_segment_id(&self) -> (id: SegmentID)
        ensures
            id == self@.active_segment_id,
    {
        self.active_segment_id
    }

    /// LSN of the next entry to be appended.
    pub fn next_entry_lsn(&self) -> (lsn: LSN)
        ensures
            lsn == self@.next_entry_lsn,
    {
        self.next_entry_lsn
    }

    /// The directory where segments are stored.
    pub fn dir(&self) -> (dir: &[u8])
        ensures
            dir@ == self@.dir,
    {
        self.dir.as_slice()
    }

    /// Where information about the latest checkpoint is stored.
    pub fn checkpoint_file(&self) -> (file: &CheckpointFile)
        ensures
            file@ == self@.checkpoint_file,
    {
        &self.checkpoint_file
    }

    /// Whether the active segment's size, on disk and still buffered, has become at least the
    /// allowed maximum.
    pub fn must_rotate(&self, on_disk_size: SegmentSize, buffer_size: SegmentSize) -> (r: bool)
        requires
            on_disk_size + buffer_size <= u64::MAX,
        ensures
            r == self@.must_rotate(on_disk_size + buffer_size),
            r == (on_disk_size + buffer_size >= self@.max_segment_size),
    {
        on_disk_size + buffer_size >= self.max_segment_size
    }

    /// What there is to do before an entry is written: rotate the log, but only if the active
    /// segment's size has become at least the allowed maximum.
    pub fn rotate_if_required(
        &self,
        on_disk_size: SegmentSize,
        buffer_size: SegmentSize,
    ) -> (actions: Vec<Action>)
        requires
            on_disk_size + buffer_size <= u64::MAX,
            self@.must_rotate(on_disk_size + buffer_size) ==> self@.active_segment_id < u32::MAX,
        ensures
            steps(actions@) == self@.required_rotation(on_disk_size + buffer_size),
            on_disk_size + buffer_size < self@.max_segment_size ==> actions@.len() == 0,
            on_disk_size + buffer_size >= self@.max_segment_size ==> steps(actions@)
                == self@.rotation(),
    {
        if self.must_rotate(on_disk_size, buffer_size) {
            self.rotate()
        } else {
            let actions: Vec<Action> = Vec::new();
            assert(steps(actions@) =~= seq![]);
            actions
        }
    }

    /// What there is to do to let a new segment take the place of the active one: first ensure that
    /// all changes in the active segment are persisted, then delete the oldest segment if there
    /// would be more than the allowed maximum, then create the new one.
    pub fn rotate(&self) -> (actions: Vec<Action>)
        requires
            self@.active_segment_id < u32::MAX,
        ensures
            steps(actions@) == self@.rotation(),
            actions@.len() == 2 || actions@.len() == 3,
            actions@[0] is Sync,
            actions@.last() == Action::OpenSegment((self@.active_segment_id + 1) as u32),
            // The oldest segment goes only where there is no room for one more.
            actions@.len() == 3 <==> self@.active_segment_id - self@.oldest_segment_id + 1 > 0
                && self@.active_segment_id - self@.oldest_segment_id + 1 >= self@.max_segment_count,
            actions@.len() == 3 ==> actions@[1] == Action::RemoveSegment(
                self@.oldest_segment_id as u32,
            ),
    {
        proof {
            use_type_invariant(self);
        }
        let mut actions: Vec<Action> = Vec::new();
        actions.push(Action::Sync);
        let segment_count: u64 = self.active_segment_id as u64 + 1 - self.oldest_segment_id as u64;
        if segment_count > 0 && segment_count >= self.max_segment_count as u64 {
            actions.push(Action::RemoveSegment(self.oldest_segment_id));
        }
        actions.push(Action::OpenSegment(self.active_segment_id + 1));
        assert(steps(actions@) =~= self@.rotation());
        actions
    }

    /// What there is to do to write an entry that holds `data`: first rotate the log if necessary,
    /// then append the entry to the active segment. If the entry is to be used as a checkpoint,
    /// ensure that it is persisted, and only then have the checkpoint file tell of it.
    pub fn write_entry(
        &self,
        data: Vec<u8>,
        is_checkpoint: bool,
        on_disk_size: SegmentSize,
        buffer_size: SegmentSize,
    ) -> (actions: Vec<Action>)
        requires
            on_disk_size + buffer_size <= u64::MAX,
            self@.must_rotate(on_disk_size + buffer_size) ==> self@.active_segment_id < u32::MAX,
            4 + data@.len() + MAX_ENCODING_OVERHEAD <= isize::MAX,
        ensures
            steps(actions@) == self@.write_steps(on_disk_size + buffer_size, data@, is_checkpoint),
            // All of the data is appended, and it can be read back.
            exists|i: int| 0 <= i < actions@.len() && (#[trigger] actions@[i]) is Append,
            forall|i: int|
                #![trigger actions@[i]]
                0 <= i < actions@.len() ==> (actions@[i] matches Action::Append(bytes) ==> {
                    &&& decoded(bytes@.skip(4)) matches Ok(entry)
                    &&& entry.data == data@
                    &&& entry.is_checkpoint == is_checkpoint
                    &&& entry.lsn == self@.next_entry_lsn
                    &&& entry.crc == crc32(data@)
                }),
            // Nothing is deleted while there is room for one segment more.
            self@.active_segment_id - self@.oldest_segment_id + 1 < self@.max_segment_count
                ==> forall|i: int|
                0 <= i < actions@.len() ==> !((#[trigger] actions@[i]) is RemoveSegment),
            // The active segment goes on being written to until it has reached the maximum size.
            actions@[0] is Append <==> on_disk_size + buffer_size < self@.max_segment_size,
    {
        let mut actions: Vec<Action> = self.rotate_if_required(on_disk_size, buffer_size);
        let segment_id: SegmentID = if self.must_rotate(on_disk_size, buffer_size) {
            self.active_segment_id + 1
        } else {
            self.active_segment_id
        };
        let ghost rotation = steps(actions@);
        let lsn: LSN = self.next_entry_lsn;
        let crc: u32 = crc32fast::hash(data.as_slice());
        let entry = WalEntry { lsn, is_checkpoint, crc, data };
        proof {
            crate::entry::lemma_encoding_overhead(entry@);
        }
        actions.push(Action::Append(entry.frame()));
        if is_checkpoint {
            actions.push(Action::Sync);
            actions.push(Action::UpdateCheckpoint((segment_id, lsn)));
        }
        assert(steps(actions@) =~= self@.write_steps(
            on_disk_size + buffer_size,
            data@,
            is_checkpoint,
        ));
        proof {
            let size = on_disk_size + buffer_size;
            law_data_is_appended_as_given(self@, size, data@, is_checkpoint);
            let planned = self@.write_steps(size, data@, is_checkpoint);
            let at: int = if size < self@.max_segment_size {
                0
            } else {
                self@.rotation().len() as int
            };
            assert forall|i: int| 0 <= i < actions@.len() implies (#[trigger] actions@[i])@
                == planned[i] by {
                assert(steps(actions@)[i] == actions@[i]@);
            }
            assert(actions@[at] is Append);
            assert(actions@[0]@ == planned[0]);
            let rotation = self@.required_rotation(size);
            let append = self@.append_steps(self@.target_segment(size), data@, is_checkpoint);
            assert forall|i: int|
                0 <= i < actions@.len() && self@.active_segment_id - self@.oldest_segment_id + 1
                    < self@.max_segment_count implies !(
            (#[trigger] actions@[i]) is RemoveSegment) by {
                if i < rotation.len() {
                    assert(planned[i] == rotation[i]);
                } else {
                    assert(planned[i] == append[i - rotation.len()]);
                }
            }
        }
        actions
    }

    /// Takes note of a step that has been done.
    pub fn complete(&mut self, action: &Action)
        requires
            old(self)@.accepts(action@),
        ensures
            final(self)@ == old(self)@.after(action@),
            final(self)@ == (WALView {
                oldest_segment_id: match *action {
                    Action::RemoveSegment(id) => id + 1,
                    _ => old(self)@.oldest_segment_id,
                },
                active_segment_id: match *action {
                    Action::OpenSegment(id) => id as int,
                    _ => old(self)@.active_segment_id,
                },
                next_entry_lsn: match *action {
                    Action::Append(_) => old(self)@.next_entry_lsn + 1,
                    _ => old(self)@.next_entry_lsn,
                },
                ..old(self)@
            }),
            final(self)@.wf(),
    {
        proof {
            use_type_invariant(&*self);
        }
        match action {
            Action::RemoveSegment(segment_id) => {
                self.oldest_segment_id = *segment_id + 1;
            },
            Action::OpenSegment(segment_id) => {
                self.active_segment_id = *segment_id;
            },
            Action::Append(_) => {
                self.next_entry_lsn = self.next_entry_lsn + 1;
            },
            Action::Sync => {},
            Action::UpdateCheckpoint(_) => {},
        }
    }
}

/// What an action asks for is what it says, and a list of actions asks for each in its turn.
pub proof fn law_actions_ask_for_what_they_say(actions: Seq<Action>, i: int)
    requires
        0 <= i < actions.len(),
    ensures
        steps(actions).len() == actions.len(),
        steps(actions)[i] == match actions[i] {
            Action::Sync => Step::Sync,
            Action::RemoveSegment(id) => Step::RemoveSegment(id as int),
            Action::OpenSegment(id) => Step::OpenSegment(id as int),
            Action::Append(bytes) => Step::Append(bytes@),
            Action::UpdateCheckpoint(details) => Step::UpdateCheckpoint(details),
        },
{
}

/// The segments of a directory are found: every file that is a segment lies between the oldest and
/// the active one, both of these are there, and if no file is a segment, both are 0.
pub proof fn law_found_segments(file_names: Seq<Vec<u8>>, segments: Segments)
    requires
        segments.found_in(file_names),
    ensures
        forall|i: int|
            #![trigger file_names[i]]
            0 <= i < file_names.len() ==> (segment_id_of(file_names[i]@) matches Some(id)
                ==> segments.preexist && segments.oldest <= id <= segments.active),
        segments.preexist ==> exists|i: int|
            0 <= i < file_names.len() && segment_id_of((#[trigger] file_names[i])@) == Some(
                segments.oldest,
            ),
        segments.preexist ==> exists|i: int|
            0 <= i < file_names.len() && segment_id_of((#[trigger] file_names[i])@) == Some(
                segments.active,
            ),
        !segments.preexist ==> segments.oldest == 0 && segments.active == 0,
{
    assert forall|i: int|
        #![trigger file_names[i]]
        0 <= i < file_names.len() implies (segment_id_of(file_names[i]@) matches Some(id)
        ==> segments.preexist && segments.oldest <= id <= segments.active) by {
        if let Some(id) = segment_id_of(file_names[i]@) {
            assert(lists_segment(file_names, id));
        }
    }
}

/// A log that has been opened is kept as its options say, over the segments that were found, and in
/// the directory that the options name.
pub proof fn law_opened_log_keeps_to_its_options(
    options: WALOptions,
    segments: Segments,
    next_entry_lsn: int,
)
    ensures
        ({
            let wal = WALView::opened(options, segments, next_entry_lsn);
            &&& wal.dir == options.dir@
            &&& wal.checkpoint_file == crate::files::joined(options.dir@, ascii(".checkpoint"@))
            &&& wal.max_segment_size == options.max_segment_size
            &&& wal.max_segment_count == options.max_segment_count
            &&& wal.oldest_segment_id == segments.oldest
            &&& wal.active_segment_id == segments.active
            &&& wal.next_entry_lsn == next_entry_lsn
        }),
{
}

/// A step that has been done changes nothing but what it is about: which segment is the oldest, which
/// is the active one, or the LSN of the next entry.
pub proof fn law_step_changes_only_its_own(wal: WALView, step: Step)
    ensures
        ({
            let after = wal.after(step);
            &&& after.dir == wal.dir
            &&& after.checkpoint_file == wal.checkpoint_file
            &&& after.max_segment_size == wal.max_segment_size
            &&& after.max_segment_count == wal.max_segment_count
            &&& after.oldest_segment_id == match step {
                Step::RemoveSegment(id) => id + 1,
                _ => wal.oldest_segment_id,
            }
            &&& after.active_segment_id == match step {
                Step::OpenSegment(id) => id,
                _ => wal.active_segment_id,
            }
            &&& after.next_entry_lsn == match step {
                Step::Append(_) => wal.next_entry_lsn + 1,
                _ => wal.next_entry_lsn,
            }
        }),
{
}

/// To write an entry is to append it once, and the bytes that are appended hold the data as it was
/// given, all of it, with the given mark, the next LSN and the checksum of the data.
pub proof fn law_data_is_appended_as_given(
    wal: WALView,
    size: int,
    data: Seq<u8>,
    is_checkpoint: bool,
)
    requires
        data.len() <= u64::MAX,
    ensures
        ({
            let steps = wal.write_steps(size, data, is_checkpoint);
            let at = if size < wal.max_segment_size {
                0
            } else {
                wal.rotation().len() as int
            };
            &&& 0 <= at < steps.len()
            &&& forall|i: int|
                0 <= i < steps.len() ==> ((#[trigger] steps[i]) is Append <==> i == at)
            &&& steps[at] matches Step::Append(bytes)
            &&& bytes.len() >= 4
            &&& decoded(bytes.skip(4)) matches Ok(entry)
            &&& entry.data == data
            &&& entry.is_checkpoint == is_checkpoint
            &&& entry.lsn == wal.next_entry_lsn as u32
            &&& entry.crc == crc32(data)
        }),
{
    let entry = entry_of(wal.next_entry_lsn, is_checkpoint, data);
    crate::entry::law_decoding_undoes_encoding(entry);
    crate::history::law_frame_layout(entry);
    let steps = wal.write_steps(size, data, is_checkpoint);
    let rotation = wal.required_rotation(size);
    let append = wal.append_steps(wal.target_segment(size), data, is_checkpoint);
    assert(steps == rotation + append);
    assert forall|i: int| 0 <= i < steps.len() implies ((#[trigger] steps[i]) is Append <==> i
        == rotation.len()) by {
        if i < rotation.len() {
            assert(steps[i] == rotation[i]);
        } else {
            assert(steps[i] == append[i - rotation.len()]);
        }
    }
    assert(steps[rotation.len() as int] == append[0]);
}

/// The log is rotated before a write exactly if the active segment has reached the maximum size, and
/// an entry that is to be a checkpoint is first forced to disk and only then told of, as the entry
/// that it is, in the segment that it went to. Nothing else is done.
pub proof fn law_course_of_a_write(wal: WALView, size: int, data: Seq<u8>, is_checkpoint: bool)
    ensures
        ({
            let steps = wal.write_steps(size, data, is_checkpoint);
            let rotates = size >= wal.max_segment_size;
            let at = if rotates {
                wal.rotation().len() as int
            } else {
                0
            };
            let segment_id = if rotates {
                wal.active_segment_id + 1
            } else {
                wal.active_segment_id
            };
            &&& rotates ==> steps.take(at) == wal.rotation()
            &&& steps[at] is Append
            &&& is_checkpoint ==> steps.skip(at + 1) == seq![
                Step::Sync,
                Step::UpdateCheckpoint((segment_id as u32, wal.next_entry_lsn as u32)),
            ]
            &&& !is_checkpoint ==> steps.len() == at + 1
        }),
{
    let steps = wal.write_steps(size, data, is_checkpoint);
    let rotation = wal.required_rotation(size);
    let append = wal.append_steps(wal.target_segment(size), data, is_checkpoint);
    let at = rotation.len() as int;
    assert(steps.take(at) =~= rotation);
    assert(steps[at] == append[0]);
    assert(steps.skip(at + 1) =~= append.skip(1));
    assert(is_checkpoint ==> append.skip(1) =~= seq![
        Step::Sync,
        Step::UpdateCheckpoint(
            (wal.target_segment(size) as u32, wal.next_entry_lsn as u32),
        ),
    ]);
}

/// To rotate is to force the active segment to disk first, and to open the segment that follows it
/// last. In between, the oldest segment is deleted exactly if there is one and there are already as
/// many as the maximum allows.
pub proof fn law_course_of_a_rotation(wal: WALView)
    ensures
        ({
            let steps = wal.rotation();
            let count = wal.active_segment_id - wal.oldest_segment_id + 1;
            &&& steps[0] == Step::Sync
            &&& steps.last() == Step::OpenSegment(wal.active_segment_id + 1)
            &&& if count >= 1 && count >= wal.max_segment_count {
                steps.len() == 3 && steps[1] == Step::RemoveSegment(wal.oldest_segment_id)
            } else {
                steps.len() == 2
            }
        }),
{
}

} // verus!
