//! Replaying the log from the latest checkpoint on.

use vstd::prelude::*;

use crate::checkpoint_file::LatestCheckpointDetails;
use crate::entry::{EntryView, WalEntry};
use crate::error::{Error, Fault};
use crate::files::{segment_path, SegmentID, LSN};
use crate::segment::{entry_at, read_entry, ReaderView, SegmentReader};

verus! {

/// Where the first entry with the given LSN ends, of the entries from `position` on.
pub open spec fn position_after(segment: Seq<u8>, position: int, lsn: LSN) -> Result<int, Fault>
    decreases segment.len() - position,
{
    match entry_at(segment, position) {
        (Ok(entry), end) => if entry.lsn == lsn {
            Ok(end)
        } else {
            position_after(segment, end, lsn)
        },
        (Err(fault), _) => Err(fault),
    }
}

/// How a replay goes on.
#[derive(Debug)]
pub enum Replayed {
    /// With this entry.
    Entry(WalEntry),
    /// With the next segment, which has this ID, if it exists. If it doesn't, all has been replayed
    /// for now.
    NextSegment(SegmentID),
}

/// What a `Replayed` holds.
pub enum ReplayedView {
    Entry(EntryView),
    NextSegment(int),
}

impl View for Replayed {
    type V = ReplayedView;

    open spec fn view(&self) -> ReplayedView {
        match *self {
            Replayed::Entry(entry) => ReplayedView::Entry(entry@),
            Replayed::NextSegment(id) => ReplayedView::NextSegment(id as int),
        }
    }
}

/// What an attempt to go on with a replay came to.
pub open spec fn progress(r: Result<Replayed, Error>) -> Result<ReplayedView, Fault> {
    match r {
        Ok(replayed) => Ok(replayed@),
        Err(error) => Err(error@),
    }
}

/// Why a segment could not be opened.
#[derive(Debug)]
pub enum OpenError<E> {
    /// It doesn't exist.
    NotFound,
    /// Anything else.
    Other(E),
}

/// The contents of a segment, if it could be opened.
pub open spec fn contents<E>(opened: Result<Vec<u8>, OpenError<E>>) -> Option<Seq<u8>> {
    match opened {
        Ok(segment) => Some(segment@),
        Err(_) => None,
    }
}

/// The segment that is being replayed, and where in it the next entry starts.
#[verifier::ext_equal]
pub struct CursorView {
    pub segment_id: int,
    pub reader: ReaderView,
}

impl CursorView {
    /// The position lies in the segment or at its end.
    pub open spec fn wf(self) -> bool {
        &&& 0 <= self.segment_id <= u32::MAX
        &&& self.reader.wf()
    }

    /// Whether all of the current segment has been replayed.
    pub open spec fn at_end(self) -> bool {
        self.reader.position == self.reader.segment.len()
    }

    /// How the replay goes on, and how far it has come then.
    pub open spec fn next(self) -> (Result<ReplayedView, Fault>, CursorView) {
        if self.at_end() {
            (Ok(ReplayedView::NextSegment(self.segment_id + 1)), self)
        } else {
            let (r, end) = entry_at(self.reader.segment, self.reader.position);
            let reader = ReaderView { position: end, ..self.reader };
            (
                match r {
                    Ok(entry) => Ok(ReplayedView::Entry(entry)),
                    Err(fault) => Err(fault),
                },
                CursorView { reader, ..self },
            )
        }
    }

    /// At the beginning of the next segment, or where it is if that could not be opened.
    pub open spec fn in_next_segment(self, segment: Option<Seq<u8>>) -> CursorView {
        match segment {
            Some(segment) => CursorView {
                segment_id: self.segment_id + 1,
                reader: ReaderView::start(segment),
            },
            None => self,
        }
    }

    /// The same place, in a segment that has grown since.
    pub open spec fn with_appended(self, appended: Seq<u8>) -> CursorView {
        let reader = ReaderView { segment: self.reader.segment + appended, ..self.reader };
        CursorView { reader, ..self }
    }

    /// Behind the entry that represents the given checkpoint, in a segment that holds the given
    /// bytes.
    pub open spec fn behind(details: LatestCheckpointDetails, segment: Seq<u8>) -> Result<
        CursorView,
        Fault,
    > {
        match position_after(segment, 0, details.1) {
            Ok(position) => Ok(
                CursorView {
                    segment_id: details.0 as int,
                    reader: ReaderView { segment, position },
                },
            ),
            Err(fault) => Err(fault),
        }
    }
}

/// Replays the log in a directory.
#[derive(Debug)]
pub struct Replayer {
    dir: Vec<u8>,
    current_segment_id: SegmentID,
    current_segment_reader: SegmentReader,
}

/// What a `Replayer` holds.
#[verifier::ext_equal]
pub struct ReplayerView {
    pub dir: Seq<u8>,
    pub cursor: CursorView,
}

impl View for Replayer {
    type V = ReplayerView;

    closed spec fn view(&self) -> ReplayerView {
        ReplayerView {
            dir: self.dir@,
            cursor: CursorView {
                segment_id: self.current_segment_id as int,
                reader: self.current_segment_reader@,
            },
        }
    }
}

impl Replayer {
    /// Constructs a replayer of the log in `dir`, given what the checkpoint file tells and what the
    /// segment that it names holds. Seeks to the end of the entry which represents the latest
    /// checkpoint. We assume that a latest checkpoint already exists.
    pub fn new(
        dir: Vec<u8>,
        latest_checkpoint: LatestCheckpointDetails,
        checkpoint_segment: Vec<u8>,
    ) -> (r: Result<Replayer, Error>)
        ensures
            match (r, CursorView::behind(latest_checkpoint, checkpoint_segment@)) {
                (Ok(replayer), Ok(cursor)) => replayer@ == (ReplayerView { dir: dir@, cursor })
                    && cursor.wf(),
                (Err(error), Err(fault)) => error@ == fault,
                _ => false,
            },
    {
        let (current_segment_id, checkpoint_entry_lsn) = latest_checkpoint;
        let mut current_segment_reader = SegmentReader::new(checkpoint_segment);
        loop
            invariant
                current_segment_reader@.wf(),
                current_segment_reader@.segment == checkpoint_segment@,
                position_after(
                    checkpoint_segment@,
                    current_segment_reader@.position,
                    checkpoint_entry_lsn,
                ) == position_after(checkpoint_segment@, 0, checkpoint_entry_lsn),
                latest_checkpoint == (current_segment_id, checkpoint_entry_lsn),
            decreases checkpoint_segment@.len() - current_segment_reader@.position,
        {
            let current_entry = match read_entry(&mut current_segment_reader) {
                Ok(entry) => entry,
                Err(error) => return Err(error),
            };
            if current_entry.lsn == checkpoint_entry_lsn {
                return Ok(Replayer { dir, current_segment_id, current_segment_reader });
            }
        }
    }

    /// Gets the next entry of the current segment. If there is none, the replay goes on with the
    /// next segment.
    pub fn try_next(&mut self) -> (r: Result<Replayed, Error>)
        requires
            old(self)@.cursor.at_end() ==> old(self)@.cursor.segment_id < u32::MAX,
        ensures
            (progress(r), final(self)@.cursor) == old(self)@.cursor.next(),
            final(self)@.dir == old(self)@.dir,
            final(self)@.cursor.wf(),
    {
        proof {
            use_type_invariant(&self.current_segment_reader);
        }
        if self.current_segment_reader.at_end() {
            return Ok(Replayed::NextSegment(self.current_segment_id + 1));
        }
        match read_entry(&mut self.current_segment_reader) {
            Ok(entry) => Ok(Replayed::Entry(entry)),
            Err(error) => Err(error),
        }
    }

    /// Goes on to the next segment, if it exists, and makes it the current one. Returns whether it
    /// does. If it doesn't, there is nothing further to replay for now. That it could not be opened
    /// for another reason is handed on.
    pub fn enter_next_segment<E>(&mut self, opened: Result<Vec<u8>, OpenError<E>>) -> (r: Result<
        bool,
        E,
    >)
        requires
            old(self)@.cursor.segment_id < u32::MAX,
        ensures
            match opened {
                Ok(_) => r == Ok::<bool, E>(true),
                Err(OpenError::NotFound) => r == Ok::<bool, E>(false),
                Err(OpenError::Other(error)) => r == Err::<bool, E>(error),
            },
            final(self)@ == (ReplayerView {
                cursor: old(self)@.cursor.in_next_segment(contents(opened)),
                ..old(self)@
            }),
            final(self)@.cursor.wf(),
    {
        proof {
            use_type_invariant(&self.current_segment_reader);
        }
        match opened {
            Ok(segment) => {
                self.current_segment_id = self.current_segment_id + 1;
                self.current_segment_reader = SegmentReader::new(segment);
                Ok(true)
            },
            Err(OpenError::NotFound) => Ok(false),
            Err(OpenError::Other(error)) => Err(error),
        }
    }

    /// Takes in what has been appended to the current segment since it was read.
    pub fn extend(&mut self, appended: &[u8])
        ensures
            final(self)@ == (ReplayerView {
                cursor: old(self)@.cursor.with_appended(appended@),
                ..old(self)@
            }),
            final(self)@.dir == old(self)@.dir,
            final(self)@.cursor.segment_id == old(self)@.cursor.segment_id,
            final(self)@.cursor.reader.position == old(self)@.cursor.reader.position,
            final(self)@.cursor.reader.segment == old(self)@.cursor.reader.segment + appended@,
            final(self)@.cursor.wf(),
    {
        self.current_segment_reader.extend(appended);
    }

    /// ID of the segment that is being replayed.
    pub fn current_segment_id(&self) -> (id: SegmentID)
        ensures
            id == self@.cursor.segment_id,
    {
        self.current_segment_id
    }

    /// Whether all that is known of the current segment has been replayed.
    pub fn at_end(&self) -> (r: bool)
        ensures
            r == self@.cursor.at_end(),
            r == (self@.cursor.reader.position == self@.cursor.reader.segment.len()),
    {
        self.current_segment_reader.at_end()
    }

    /// The path of a segment of the log.
    pub fn segment_path(&self, segment_id: SegmentID) -> (path: Vec<u8>)
        ensures
            path@ == crate::files::joined(self@.dir, crate::files::segment_file_name(segment_id)),
    {
        segment_path(self.dir.as_slice(), segment_id)
    }
}

/// The views of what a replay gives, and of what it is given, show what there is.
pub proof fn law_progress_shows_what_there_is<E>(
    entry: WalEntry,
    segment_id: SegmentID,
    error: Error,
    segment: Vec<u8>,
    reason: OpenError<E>,
)
    ensures
        progress(Ok(Replayed::Entry(entry))) == Ok::<ReplayedView, Fault>(
            ReplayedView::Entry(entry@),
        ),
        progress(Ok(Replayed::NextSegment(segment_id))) == Ok::<ReplayedView, Fault>(
            ReplayedView::NextSegment(segment_id as int),
        ),
        progress(Err(error)) == Err::<ReplayedView, Fault>(error@),
        contents(Ok::<Vec<u8>, OpenError<E>>(segment)) == Some(segment@),
        contents(Err::<Vec<u8>, OpenError<E>>(reason)) is None,
{
}

} // verus!
