//! What the files of a log hold while it is written to.

use vstd::prelude::*;

use crate::checkpoint_file::LatestCheckpointDetails;
use crate::entry::{crc32, EntryView};
use crate::history::{entries_from, entries_of, law_appending_adds_an_entry, lemma_last_start,
    lemma_log_entries_last, lemma_log_entries_same, lemma_position_after_finds,
    lemma_position_after_in_longer_segment, log_entries};
use crate::replayer::position_after;
use crate::segment::last_start;
use crate::wal::{entry_of, Segments, Step, WALOptions, WALView};

verus! {

/// The files of a log.
#[verifier::ext_equal]
pub struct Storage {
    /// The contents of each segment.
    pub segments: Map<int, Seq<u8>>,
    /// The segment that was opened last.
    pub open_segment: int,
    /// How many bytes of each segment have reached the disk for certain.
    pub synced: Map<int, int>,
    /// What the checkpoint file tells.
    pub checkpoint: Option<LatestCheckpointDetails>,
}

impl Storage {
    /// The files after a step has been done. The checkpoint file goes from what it told before to
    /// what it tells now, with nothing in between.
    pub open spec fn after(self, step: Step) -> Storage {
        match step {
            Step::Sync => Storage {
                synced: self.synced.insert(
                    self.open_segment,
                    self.segments[self.open_segment].len() as int,
                ),
                ..self
            },
            Step::RemoveSegment(id) => Storage { segments: self.segments.remove(id), ..self },
            Step::OpenSegment(id) => if self.segments.dom().contains(id) {
                Storage { open_segment: id, ..self }
            } else {
                Storage {
                    segments: self.segments.insert(id, Seq::empty()),
                    open_segment: id,
                    synced: self.synced.insert(id, 0),
                    ..self
                }
            },
            Step::Append(bytes) => Storage {
                segments: self.segments.insert(
                    self.open_segment,
                    self.segments[self.open_segment] + bytes,
                ),
                ..self
            },
            Step::UpdateCheckpoint(details) => Storage { checkpoint: Some(details), ..self },
        }
    }

    /// What of a segment has reached the disk for certain.
    pub open spec fn durable(self, id: int) -> Seq<u8> {
        self.segments[id].take(self.synced[id])
    }

    /// All of a segment has reached the disk for certain.
    pub open spec fn is_synced(self, id: int) -> bool {
        self.synced[id] == self.segments[id].len()
    }

    /// The files of a log that has just been created.
    pub open spec fn created() -> Storage {
        Storage {
            segments: Map::empty().insert(0, Seq::empty()),
            open_segment: 0,
            synced: Map::empty().insert(0, 0),
            checkpoint: None,
        }
    }
}

impl WALView {
    /// The entries that the log holds, oldest first.
    pub open spec fn entries(self, files: Storage) -> Seq<EntryView> {
        log_entries(files.segments, self.oldest_segment_id, self.active_segment_id)
    }

    /// LSNs increase by one from each entry to the next, and lead up to the next entry's.
    pub open spec fn numbers(self, entries: Seq<EntryView>) -> bool {
        forall|i: int|
            0 <= i < entries.len() ==> (#[trigger] entries[i]).lsn == self.next_entry_lsn
                - entries.len() + i
    }

    /// If the checkpoint file names a segment that is still there, the entry which represents the
    /// checkpoint has reached the disk.
    pub open spec fn checkpoint_is_durable(self, files: Storage) -> bool {
        files.checkpoint matches Some((segment_id, lsn)) ==> {
            &&& segment_id <= self.active_segment_id
            &&& lsn < self.next_entry_lsn
            &&& segment_id >= self.oldest_segment_id ==> position_after(
                files.durable(segment_id as int),
                0,
                lsn,
            ) is Ok
        }
    }

    /// The files are those of a log in this state.
    pub open spec fn describes(self, files: Storage) -> bool {
        &&& self.wf()
        &&& files.open_segment == self.active_segment_id
        &&& forall|id: int| #[trigger]
            files.segments.dom().contains(id) <==> self.oldest_segment_id <= id
                <= self.active_segment_id
        &&& forall|id: int| #[trigger]
            files.segments.dom().contains(id) ==> entries_from(files.segments[id], 0) is Some
        &&& forall|id: int| #[trigger]
            files.segments.dom().contains(id) ==> 0 <= files.synced[id]
                <= files.segments[id].len()
        &&& forall|id: int| #[trigger]
            files.segments.dom().contains(id) && id != self.active_segment_id ==> files.is_synced(
                id,
            )
        &&& self.numbers(self.entries(files))
        &&& self.checkpoint_is_durable(files)
    }

    /// Whether an entry that holds `data` can be written when the active segment has `size` bytes:
    /// there is a segment to write to, IDs and LSNs have not run out, and the size of the encoding
    /// fits in front of it.
    pub open spec fn can_write(self, size: int, data: Seq<u8>, is_checkpoint: bool) -> bool {
        &&& self.must_rotate(size) || self.segment_count() > 0
        &&& self.must_rotate(size) ==> self.active_segment_id < u32::MAX
        &&& self.next_entry_lsn < u32::MAX
        &&& entry_of(self.next_entry_lsn, is_checkpoint, data).encoding().len() <= u32::MAX
    }
}

/// State and files after steps have been done, in order.
pub open spec fn done(wal: WALView, files: Storage, steps: Seq<Step>) -> (WALView, Storage)
    decreases steps.len(),
{
    if steps.len() == 0 {
        (wal, files)
    } else {
        let (wal, files) = done(wal, files, steps.drop_last());
        (wal.after(steps.last()), files.after(steps.last()))
    }
}

/// A log that has just been created, in a directory that holds no segment.
pub proof fn law_new_log(options: WALOptions)
    ensures
        ({
            let wal = WALView::opened(
                options,
                Segments { preexist: false, oldest: 0, active: 0 },
                0,
            );
            &&& wal.describes(Storage::created())
            &&& wal.entries(Storage::created()) == Seq::<EntryView>::empty()
        }),
{
    let wal = WALView::opened(options, Segments { preexist: false, oldest: 0, active: 0 }, 0);
    reveal_with_fuel(log_entries, 2);
    assert(wal.entries(Storage::created()) =~= Seq::<EntryView>::empty());
}

/// Forcing the active segment to disk.
proof fn lemma_sync(wal: WALView, files: Storage)
    requires
        wal.describes(files),
    ensures
        wal.after(Step::Sync).describes(files.after(Step::Sync)),
        files.after(Step::Sync).is_synced(wal.active_segment_id),
{
    let after = files.after(Step::Sync);
    if let Some((segment_id, lsn)) = files.checkpoint {
        let id = segment_id as int;
        if id >= wal.oldest_segment_id {
            assert(files.segments.dom().contains(id));
            let segment = files.segments[id];
            let kept = files.durable(id);
            let rest = segment.skip(kept.len() as int);
            lemma_position_after_in_longer_segment(kept, rest, 0, lsn);
            assert(kept + rest =~= segment);
            assert(id == files.open_segment ==> after.durable(id) =~= segment);
        }
    }
}

/// Deleting the oldest segment.
proof fn lemma_remove(wal: WALView, files: Storage)
    requires
        wal.describes(files),
        wal.oldest_segment_id <= wal.active_segment_id < u32::MAX,
    ensures
        ({
            let step = Step::RemoveSegment(wal.oldest_segment_id);
            &&& wal.after(step).describes(files.after(step))
            &&& wal.entries(files) == entries_of(files.segments[wal.oldest_segment_id])
                + wal.after(step).entries(files.after(step))
        }),
{
    let oldest = wal.oldest_segment_id;
    let step = Step::RemoveSegment(oldest);
    let after = files.after(step);
    lemma_log_entries_same(files.segments, after.segments, oldest + 1, wal.active_segment_id);
    let removed = entries_of(files.segments[oldest]);
    let left = wal.after(step).entries(after);
    assert forall|i: int| 0 <= i < left.len() implies (#[trigger] left[i]).lsn
        == wal.next_entry_lsn - left.len() + i by {
        assert(left[i] == wal.entries(files)[removed.len() + i]);
    }
    if let Some((segment_id, _)) = files.checkpoint {
        if segment_id > oldest {
            assert(files.segments.dom().contains(segment_id as int));
            assert(after.durable(segment_id as int) =~= files.durable(segment_id as int));
        }
    }
}

/// Creating the next segment.
proof fn lemma_open(wal: WALView, files: Storage)
    requires
        wal.describes(files),
        wal.segment_count() > 0 ==> files.is_synced(wal.active_segment_id),
        wal.active_segment_id < u32::MAX,
    ensures
        ({
            let step = Step::OpenSegment(wal.active_segment_id + 1);
            &&& wal.after(step).describes(files.after(step))
            &&& wal.after(step).entries(files.after(step)) == wal.entries(files)
        }),
{
    let next = wal.active_segment_id + 1;
    let step = Step::OpenSegment(next);
    let after = files.after(step);
    assert(!files.segments.dom().contains(next));
    lemma_log_entries_same(
        files.segments,
        after.segments,
        wal.oldest_segment_id,
        wal.active_segment_id,
    );
    lemma_log_entries_last(after.segments, wal.oldest_segment_id, next);
    assert(wal.after(step).entries(after) =~= wal.entries(files));
    if let Some((segment_id, _)) = files.checkpoint {
        let id = segment_id as int;
        if id >= wal.oldest_segment_id {
            assert(files.segments.dom().contains(id));
            assert(after.durable(id) =~= files.durable(id));
        }
    }
}

/// Appending the next entry.
proof fn lemma_append(wal: WALView, files: Storage, entry: EntryView)
    requires
        wal.describes(files),
        wal.oldest_segment_id <= wal.active_segment_id,
        wal.next_entry_lsn < u32::MAX,
        entry.sound(),
        entry.lsn == wal.next_entry_lsn,
    ensures
        ({
            let step = Step::Append(entry.frame());
            &&& wal.after(step).describes(files.after(step))
            &&& wal.after(step).entries(files.after(step)) == wal.entries(files).push(entry)
            &&& entries_of(files.after(step).segments[wal.active_segment_id]) == entries_of(
                files.segments[wal.active_segment_id],
            ).push(entry)
        }),
{
    let active = wal.active_segment_id;
    let step = Step::Append(entry.frame());
    let after = files.after(step);
    assert(files.segments.dom().contains(active));
    law_appending_adds_an_entry(files.segments[active], 0, entry);
    lemma_log_entries_last(files.segments, wal.oldest_segment_id, active);
    lemma_log_entries_last(after.segments, wal.oldest_segment_id, active);
    lemma_log_entries_same(files.segments, after.segments, wal.oldest_segment_id, active - 1);
    assert(wal.after(step).entries(after) =~= wal.entries(files).push(entry));
    if let Some((segment_id, _)) = files.checkpoint {
        let id = segment_id as int;
        if id >= wal.oldest_segment_id {
            assert(files.segments.dom().contains(id));
            assert(after.durable(id) =~= files.durable(id));
        }
    }
}

/// Having the checkpoint file tell of the entry that was appended last.
proof fn lemma_update_checkpoint(wal: WALView, files: Storage)
    requires
        wal.describes(files),
        files.is_synced(wal.active_segment_id),
        wal.oldest_segment_id <= wal.active_segment_id,
        entries_of(files.segments[wal.active_segment_id]).len() > 0,
    ensures
        ({
            let step = Step::UpdateCheckpoint(
                (wal.active_segment_id as u32, (wal.next_entry_lsn - 1) as u32),
            );
            wal.after(step).describes(files.after(step))
        }),
{
    let active = wal.active_segment_id;
    let lsn = (wal.next_entry_lsn - 1) as u32;
    let segment = files.segments[active];
    let here = entries_of(segment);
    let all = wal.entries(files);
    assert(files.segments.dom().contains(active));
    lemma_log_entries_last(files.segments, wal.oldest_segment_id, active);
    let offset = all.len() - here.len();
    assert forall|i: int| 0 <= i < here.len() implies (#[trigger] here[i]).lsn
        == wal.next_entry_lsn - here.len() + i by {
        assert(here[i] == all[offset + i]);
    }
    assert(here[here.len() - 1].lsn == wal.next_entry_lsn - 1);
    lemma_position_after_finds(segment, 0, here, here.len() - 1, lsn);
    assert(files.durable(active) =~= segment);
    let after = files.after(Step::UpdateCheckpoint((active as u32, lsn)));
    assert(after.durable(active) == files.durable(active));
    assert(wal.entries(after) == all);
}

/// Doing one step more.
proof fn lemma_one_step_more(wal: WALView, files: Storage, steps: Seq<Step>, n: int)
    requires
        0 <= n < steps.len(),
    ensures
        ({
            let (before, files_before) = done(wal, files, steps.take(n));
            done(wal, files, steps.take(n + 1)) == (
                before.after(steps[n]),
                files_before.after(steps[n]),
            )
        }),
{
    assert(steps.take(n + 1).drop_last() =~= steps.take(n));
}

/// Doing steps and then further steps.
proof fn lemma_done_in_two_parts(
    wal: WALView,
    files: Storage,
    first: Seq<Step>,
    then: Seq<Step>,
)
    ensures
        ({
            let (wal_between, files_between) = done(wal, files, first);
            done(wal, files, first + then) == done(wal_between, files_between, then)
        }),
    decreases then.len(),
{
    if then.len() == 0 {
        assert(first + then =~= first);
    } else {
        assert((first + then).drop_last() =~= first + then.drop_last());
        lemma_done_in_two_parts(wal, files, first, then.drop_last());
    }
}

/// However many of the steps have been done, the files are those of a log in the state that it has
/// then.
pub open spec fn always_describes(wal: WALView, files: Storage, steps: Seq<Step>) -> bool {
    forall|n: int|
        0 <= n <= steps.len() ==> (#[trigger] done(wal, files, steps.take(n))).0.describes(
            done(wal, files, steps.take(n)).1,
        )
}

/// If the files are in order throughout some steps, and throughout further steps, they are in order
/// throughout all of them.
proof fn lemma_always_describes_in_two_parts(
    wal: WALView,
    files: Storage,
    first: Seq<Step>,
    then: Seq<Step>,
)
    requires
        always_describes(wal, files, first),
        ({
            let (wal_between, files_between) = done(wal, files, first);
            always_describes(wal_between, files_between, then)
        }),
    ensures
        always_describes(wal, files, first + then),
{
    let (wal_between, files_between) = done(wal, files, first);
    let all = first + then;
    assert forall|n: int| 0 <= n <= all.len() implies (#[trigger] done(
        wal,
        files,
        all.take(n),
    )).0.describes(done(wal, files, all.take(n)).1) by {
        if n <= first.len() {
            assert(all.take(n) =~= first.take(n));
            let _ = done(wal, files, first.take(n));
        } else {
            let m = n - first.len();
            assert(all.take(n) =~= first + then.take(m));
            lemma_done_in_two_parts(wal, files, first, then.take(m));
            let _ = done(wal_between, files_between, then.take(m));
        }
    }
}

/// Letting a new segment take the place of the active one takes no entry away but those of the
/// oldest segment, where there would be too many segments.
pub proof fn law_rotation_keeps_the_entries(wal: WALView, files: Storage)
    requires
        wal.describes(files),
        wal.active_segment_id < u32::MAX,
    ensures
        always_describes(wal, files, wal.rotation()),
        ({
            let (wal_after, files_after) = done(wal, files, wal.rotation());
            let removed = if wal.is_full() {
                entries_of(files.segments[wal.oldest_segment_id])
            } else {
                Seq::empty()
            };
            &&& wal_after.describes(files_after)
            &&& wal.entries(files) == removed + wal_after.entries(files_after)
            &&& wal_after == WALView {
                active_segment_id: wal.active_segment_id + 1,
                oldest_segment_id: wal.oldest_segment_id + (if wal.is_full() {
                    1int
                } else {
                    0
                }),
                ..wal
            }
            &&& files_after.checkpoint == files.checkpoint
        }),
{
    let steps = wal.rotation();
    let synced = files.after(Step::Sync);
    assert(steps.take(0) =~= Seq::empty());
    assert(steps[0] == Step::Sync);
    lemma_one_step_more(wal, files, steps, 0);
    lemma_sync(wal, files);
    let open = Step::OpenSegment(wal.active_segment_id + 1);
    if wal.is_full() {
        let remove = Step::RemoveSegment(wal.oldest_segment_id);
        assert(steps[1] == remove && steps[2] == open && steps.len() == 3);
        lemma_one_step_more(wal, files, steps, 1);
        lemma_remove(wal, synced);
        lemma_one_step_more(wal, files, steps, 2);
        lemma_open(wal.after(remove), synced.after(remove));
        assert(steps.take(3) =~= steps);
    } else {
        assert(steps[1] == open && steps.len() == 2);
        lemma_one_step_more(wal, files, steps, 1);
        lemma_open(wal, synced);
        assert(steps.take(2) =~= steps);
        assert(wal.entries(files) =~= Seq::<EntryView>::empty() + wal.entries(files));
    }
    assert forall|n: int| 0 <= n <= steps.len() implies (#[trigger] done(
        wal,
        files,
        steps.take(n),
    )).0.describes(done(wal, files, steps.take(n)).1) by {
        assert(n == 0 || n == 1 || n == 2 || n == 3);
    }
}

/// Appending an entry, and having the checkpoint file tell of it if it is a checkpoint.
proof fn lemma_append_steps(wal: WALView, files: Storage, data: Seq<u8>, is_checkpoint: bool)
    requires
        wal.describes(files),
        wal.segment_count() > 0,
        wal.next_entry_lsn < u32::MAX,
        entry_of(wal.next_entry_lsn, is_checkpoint, data).sound(),
    ensures
        ({
            let entry = entry_of(wal.next_entry_lsn, is_checkpoint, data);
            let steps = wal.append_steps(wal.active_segment_id, data, is_checkpoint);
            let (wal_after, files_after) = done(wal, files, steps);
            &&& always_describes(wal, files, steps)
            &&& wal_after.describes(files_after)
            &&& wal_after.entries(files_after) == wal.entries(files).push(entry)
            &&& wal_after == WALView { next_entry_lsn: wal.next_entry_lsn + 1, ..wal }
            &&& files_after.checkpoint == (if is_checkpoint {
                Some((wal.active_segment_id as u32, wal.next_entry_lsn as u32))
            } else {
                files.checkpoint
            })
            &&& is_checkpoint ==> files_after.is_synced(wal.active_segment_id)
            &&& entries_of(files_after.segments[wal.active_segment_id]) == entries_of(
                files.segments[wal.active_segment_id],
            ).push(entry)
        }),
{
    let entry = entry_of(wal.next_entry_lsn, is_checkpoint, data);
    let steps = wal.append_steps(wal.active_segment_id, data, is_checkpoint);
    let append = Step::Append(entry.frame());
    let wal_after = wal.after(append);
    let appended = files.after(append);
    assert(steps.take(0) =~= Seq::empty());
    assert(steps[0] == append);
    lemma_one_step_more(wal, files, steps, 0);
    lemma_append(wal, files, entry);
    if is_checkpoint {
        let update = Step::UpdateCheckpoint(
            (wal.active_segment_id as u32, wal.next_entry_lsn as u32),
        );
        assert(steps[1] == Step::Sync && steps[2] == update && steps.len() == 3);
        lemma_one_step_more(wal, files, steps, 1);
        lemma_sync(wal_after, appended);
        lemma_one_step_more(wal, files, steps, 2);
        lemma_update_checkpoint(wal_after, appended.after(Step::Sync));
        assert(steps.take(3) =~= steps);
    } else {
        assert(steps.len() == 1);
        assert(steps.take(1) =~= steps);
    }
    assert forall|n: int| 0 <= n <= steps.len() implies (#[trigger] done(
        wal,
        files,
        steps.take(n),
    )).0.describes(done(wal, files, steps.take(n)).1) by {
        assert(n == 0 || n == 1 || n == 2 || n == 3);
    }
}

/// Writing an entry adds it to the log, with the next LSN, as the last entry of the segment that it
/// goes to, and takes nothing away but the oldest segment where there would be too many. A
/// checkpoint is then on disk, and the checkpoint file tells of it. And however many of the steps
/// have been done, the files are those of a log in the state that it has then.
pub proof fn law_writing_adds_an_entry(
    wal: WALView,
    files: Storage,
    size: int,
    data: Seq<u8>,
    is_checkpoint: bool,
)
    requires
        wal.describes(files),
        wal.can_write(size, data, is_checkpoint),
    ensures
        always_describes(wal, files, wal.write_steps(size, data, is_checkpoint)),
        ({
            let steps = wal.write_steps(size, data, is_checkpoint);
            let (wal_after, files_after) = done(wal, files, steps);
            let removed = if wal.must_rotate(size) && wal.is_full() {
                entries_of(files.segments[wal.oldest_segment_id])
            } else {
                Seq::empty()
            };
            &&& wal_after.describes(files_after)
            &&& wal.entries(files).push(entry_of(wal.next_entry_lsn, is_checkpoint, data))
                == removed + wal_after.entries(files_after)
            &&& wal_after.next_entry_lsn == wal.next_entry_lsn + 1
            &&& wal_after.active_segment_id == wal.target_segment(size)
            &&& wal_after.segment_count() > 0
            &&& files_after.checkpoint == (if is_checkpoint {
                Some((wal.target_segment(size) as u32, wal.next_entry_lsn as u32))
            } else {
                files.checkpoint
            })
            &&& is_checkpoint ==> files_after.is_synced(wal.target_segment(size))
            &&& entries_of(files_after.segments[wal.target_segment(size)]).len() > 0
            &&& entries_of(files_after.segments[wal.target_segment(size)]).last() == entry_of(
                wal.next_entry_lsn,
                is_checkpoint,
                data,
            )
        }),
{
    let steps = wal.write_steps(size, data, is_checkpoint);
    let entry = entry_of(wal.next_entry_lsn, is_checkpoint, data);
    let rotation = wal.required_rotation(size);
    let (wal_between, files_between) = done(wal, files, rotation);
    let removed = if wal.must_rotate(size) && wal.is_full() {
        entries_of(files.segments[wal.oldest_segment_id])
    } else {
        Seq::empty()
    };
    if wal.must_rotate(size) {
        law_rotation_keeps_the_entries(wal, files);
    } else {
        assert(rotation.take(0) =~= rotation);
        assert(always_describes(wal, files, rotation));
    }
    assert(wal.entries(files) =~= removed + wal_between.entries(files_between));
    let append = wal.append_steps(wal.target_segment(size), data, is_checkpoint);
    lemma_append_steps(wal_between, files_between, data, is_checkpoint);
    lemma_done_in_two_parts(wal, files, rotation, append);
    lemma_always_describes_in_two_parts(wal, files, rotation, append);
    assert(wal.entries(files).push(entry) =~= removed + wal_between.entries(files_between).push(
        entry,
    ));
}

/// Once a checkpoint has been written, all that the log holds has reached the disk.
pub proof fn law_checkpoint_forces_the_log(
    wal: WALView,
    files: Storage,
    size: int,
    data: Seq<u8>,
    id: int,
)
    requires
        wal.describes(files),
        wal.can_write(size, data, true),
    ensures
        ({
            let (_, files_after) = done(wal, files, wal.write_steps(size, data, true));
            files_after.segments.dom().contains(id) ==> files_after.is_synced(id)
        }),
{
    law_writing_adds_an_entry(wal, files, size, data, true);
}

/// Entries reach the disk in the order of their LSNs: all of a segment before any of the next, and
/// each segment from front to back.
pub proof fn law_entries_reach_the_disk_in_order(wal: WALView, files: Storage, a: int, b: int)
    requires
        wal.describes(files),
        wal.oldest_segment_id <= a < b <= wal.active_segment_id,
    ensures
        files.durable(a) == files.segments[a],
        files.durable(b).is_prefix_of(files.segments[b]),
{
    assert(files.segments.dom().contains(a) && files.segments.dom().contains(b));
    assert(files.durable(a) =~= files.segments[a]);
}

/// No step changes what has been written to a segment: it appends, or it deletes the segment.
pub proof fn law_no_step_changes_what_was_written(files: Storage, step: Step, id: int)
    requires
        files.segments.dom().contains(id),
        files.after(step).segments.dom().contains(id),
    ensures
        files.segments[id].is_prefix_of(files.after(step).segments[id]),
{
    let before = files.segments[id];
    let after = files.after(step).segments[id];
    assert(after.take(before.len() as int) =~= before);
}

/// Every entry has an LSN of its own, and later entries have larger ones.
pub proof fn law_lsns_increase(wal: WALView, files: Storage, i: int, j: int)
    requires
        wal.describes(files),
        0 <= i < j < wal.entries(files).len(),
    ensures
        wal.entries(files)[i].lsn < wal.entries(files)[j].lsn < wal.next_entry_lsn,
{
}

/// The state after the first `n` steps of a rotation.
proof fn lemma_state_in_rotation(wal: WALView, files: Storage, n: int)
    requires
        0 <= n <= wal.rotation().len(),
    ensures
        done(wal, files, wal.rotation().take(n)).0 == (WALView {
            oldest_segment_id: wal.oldest_segment_id + (if wal.is_full() && n >= 2 {
                1int
            } else {
                0
            }),
            active_segment_id: wal.active_segment_id + (if n == wal.rotation().len() {
                1int
            } else {
                0
            }),
            ..wal
        }),
    decreases n,
{
    if n > 0 {
        lemma_state_in_rotation(wal, files, n - 1);
        lemma_one_step_more(wal, files, wal.rotation(), n - 1);
    }
}

/// The segments after the first `n` steps of a rotation: none has changed, and at the end there is
/// a new one.
proof fn lemma_segments_in_rotation(wal: WALView, files: Storage, n: int)
    requires
        wal.describes(files),
        0 <= n <= wal.rotation().len(),
    ensures
        ({
            let segments = done(wal, files, wal.rotation().take(n)).1.segments;
            forall|id: int| #[trigger]
                segments.dom().contains(id) ==> if id == wal.active_segment_id + 1 {
                    n == wal.rotation().len() && segments[id].len() == 0
                } else {
                    files.segments.dom().contains(id) && segments[id] == files.segments[id]
                }
        }),
    decreases n,
{
    if n > 0 {
        lemma_segments_in_rotation(wal, files, n - 1);
        lemma_one_step_more(wal, files, wal.rotation(), n - 1);
    }
}

/// State and segments after the first `n` steps of appending an entry: nothing has changed but the
/// active segment.
proof fn lemma_in_append_steps(
    wal: WALView,
    files: Storage,
    segment_id: int,
    data: Seq<u8>,
    is_checkpoint: bool,
    n: int,
)
    requires
        0 <= n <= wal.append_steps(segment_id, data, is_checkpoint).len(),
    ensures
        ({
            let steps = wal.append_steps(segment_id, data, is_checkpoint);
            let (wal_after, files_after) = done(wal, files, steps.take(n));
            let frame = entry_of(wal.next_entry_lsn, is_checkpoint, data).frame();
            let open = files.open_segment;
            &&& wal_after == WALView {
                next_entry_lsn: wal.next_entry_lsn + (if n > 0 {
                    1int
                } else {
                    0
                }),
                ..wal
            }
            &&& files_after.segments == (if n > 0 {
                files.segments.insert(open, files.segments[open] + frame)
            } else {
                files.segments
            })
            &&& files_after.open_segment == open
        }),
    decreases n,
{
    if n > 0 {
        let steps = wal.append_steps(segment_id, data, is_checkpoint);
        lemma_in_append_steps(wal, files, segment_id, data, is_checkpoint, n - 1);
        lemma_one_step_more(wal, files, steps, n - 1);
    }
}

/// The first `n` steps of a write are steps of the rotation, or all of them and then steps of
/// appending the entry.
proof fn lemma_in_write_steps(
    wal: WALView,
    files: Storage,
    size: int,
    data: Seq<u8>,
    is_checkpoint: bool,
    n: int,
)
    requires
        0 <= n <= wal.write_steps(size, data, is_checkpoint).len(),
    ensures
        ({
            let steps = wal.write_steps(size, data, is_checkpoint);
            let rotation = wal.required_rotation(size);
            if n <= rotation.len() {
                steps.take(n) == rotation.take(n)
            } else {
                let (wal_between, files_between) = done(wal, files, rotation);
                let append = wal.append_steps(wal.target_segment(size), data, is_checkpoint);
                done(wal, files, steps.take(n)) == done(
                    wal_between,
                    files_between,
                    append.take(n - rotation.len()),
                )
            }
        }),
{
    let steps = wal.write_steps(size, data, is_checkpoint);
    let rotation = wal.required_rotation(size);
    let append = wal.append_steps(wal.target_segment(size), data, is_checkpoint);
    if n <= rotation.len() {
        assert(steps.take(n) =~= rotation.take(n));
    } else {
        assert(steps.take(n) =~= rotation + append.take(n - rotation.len()));
        lemma_done_in_two_parts(wal, files, rotation, append.take(n - rotation.len()));
    }
}

/// At no step of a write are there more segments than the maximum allows, unless there were before.
/// (One segment there has to be, whatever the maximum.)
pub proof fn law_segment_count_is_bounded(
    wal: WALView,
    files: Storage,
    size: int,
    data: Seq<u8>,
    is_checkpoint: bool,
    n: int,
)
    requires
        wal.wf(),
        0 <= n <= wal.write_steps(size, data, is_checkpoint).len(),
    ensures
        ({
            let steps = wal.write_steps(size, data, is_checkpoint);
            let count = done(wal, files, steps.take(n)).0.segment_count();
            count <= 1 || count <= wal.max_segment_count || count <= wal.segment_count()
        }),
{
    let rotation = wal.required_rotation(size);
    let rotated = if n <= rotation.len() { n } else { rotation.len() as int };
    lemma_in_write_steps(wal, files, size, data, is_checkpoint, n);
    if wal.must_rotate(size) {
        lemma_state_in_rotation(wal, files, rotated);
    } else {
        assert(rotation.take(0) =~= Seq::empty());
    }
    if n > rotation.len() {
        assert(rotation.take(rotated) =~= rotation);
        let (between, files_between) = done(wal, files, rotation);
        let target = wal.target_segment(size);
        lemma_in_append_steps(between, files_between, target, data, is_checkpoint, n - rotated);
    }
}

impl WALView {
    /// No segment passes the maximum size by more than its last entry, and every segment but the
    /// active one has reached it.
    pub open spec fn keeps_sizes(self, files: Storage) -> bool {
        forall|id: int| #[trigger]
            files.segments.dom().contains(id) ==> {
                let last = last_start(files.segments[id], 0);
                &&& last == 0 || last < self.max_segment_size
                &&& id != self.active_segment_id ==> files.segments[id].len()
                    >= self.max_segment_size
            }
    }
}

/// The segments of a log that has just been created keep to the maximum size.
pub proof fn law_new_log_keeps_sizes(options: WALOptions)
    ensures
        WALView::opened(
            options,
            Segments { preexist: false, oldest: 0, active: 0 },
            0,
        ).keeps_sizes(Storage::created()),
{
}

/// At every step of a write, each segment consists of whole entries and passes the maximum size by
/// its last entry only, and each but the active one has reached it.
pub proof fn law_writing_keeps_sizes(
    wal: WALView,
    files: Storage,
    size: int,
    data: Seq<u8>,
    is_checkpoint: bool,
    n: int,
)
    requires
        wal.describes(files),
        wal.keeps_sizes(files),
        wal.can_write(size, data, is_checkpoint),
        wal.segment_count() > 0 ==> size == files.segments[wal.active_segment_id].len(),
        0 <= n <= wal.write_steps(size, data, is_checkpoint).len(),
    ensures
        ({
            let steps = wal.write_steps(size, data, is_checkpoint);
            let (wal_after, files_after) = done(wal, files, steps.take(n));
            &&& wal_after.keeps_sizes(files_after)
            &&& forall|id: int| #[trigger]
                files_after.segments.dom().contains(id) ==> entries_from(
                    files_after.segments[id],
                    0,
                ) is Some
        }),
{
    let steps = wal.write_steps(size, data, is_checkpoint);
    let rotation = wal.required_rotation(size);
    let rotated = if n <= rotation.len() { n } else { rotation.len() as int };
    law_writing_adds_an_entry(wal, files, size, data, is_checkpoint);
    let _ = done(wal, files, steps.take(n));
    lemma_in_write_steps(wal, files, size, data, is_checkpoint, n);
    let (between, files_between) = done(wal, files, rotation.take(rotated));
    if wal.must_rotate(size) {
        law_rotation_keeps_the_entries(wal, files);
        lemma_state_in_rotation(wal, files, rotated);
        lemma_segments_in_rotation(wal, files, rotated);
    } else {
        assert(rotation.take(0) =~= Seq::empty());
    }
    assert(between.keeps_sizes(files_between));
    if n > rotation.len() {
        assert(rotation.take(rotated) =~= rotation);
        let target = wal.target_segment(size);
        lemma_in_append_steps(between, files_between, target, data, is_checkpoint, n - rotated);
        assert(files_between.segments.dom().contains(target));
        let entry = entry_of(wal.next_entry_lsn, is_checkpoint, data);
        lemma_last_start(files_between.segments[target], 0, entry);
    }
}

/// What is left of some entries and one more, after some at the front have been removed.
proof fn lemma_what_is_left(
    before: Seq<EntryView>,
    entry: EntryView,
    removed: Seq<EntryView>,
    left: Seq<EntryView>,
)
    requires
        before.push(entry) == removed + left,
        left.len() > 0,
    ensures
        left.last() == entry,
        left.len() <= before.len() + 1,
        left.drop_last() == before.skip(before.len() + 1 - left.len()),
{
    let all = before.push(entry);
    assert(all.len() == removed.len() + left.len());
    assert(all[all.len() - 1] == left[left.len() - 1]);
    assert forall|i: int| 0 <= i < left.len() - 1 implies left[i] == before[removed.len() + i] by {
        assert(all[removed.len() + i] == left[i]);
    }
    assert(left.drop_last() =~= before.skip(before.len() + 1 - left.len()));
}

/// The entry that a write adds has, as its data, exactly the bytes that were handed to the write,
/// and the mark that was asked for. It is the last entry of the log and of its active segment, and
/// the entries in front of it are those that were there, as far as they have not been deleted.
pub proof fn law_written_data_is_kept(
    wal: WALView,
    files: Storage,
    size: int,
    data: Seq<u8>,
    is_checkpoint: bool,
)
    requires
        wal.describes(files),
        wal.can_write(size, data, is_checkpoint),
    ensures
        ({
            let steps = wal.write_steps(size, data, is_checkpoint);
            let (wal_after, files_after) = done(wal, files, steps);
            let before = wal.entries(files);
            let after = wal_after.entries(files_after);
            let here = entries_of(files_after.segments[wal_after.active_segment_id]);
            &&& after.len() > 0
            &&& after.last().data == data
            &&& after.last().is_checkpoint == is_checkpoint
            &&& after.last().lsn == wal.next_entry_lsn
            &&& after.last().crc == crc32(data)
            &&& here.len() > 0
            &&& here.last() == after.last()
            &&& after.len() <= before.len() + 1
            &&& after.drop_last() == before.skip(before.len() + 1 - after.len())
        }),
{
    law_writing_adds_an_entry(wal, files, size, data, is_checkpoint);
    let steps = wal.write_steps(size, data, is_checkpoint);
    let (wal_after, files_after) = done(wal, files, steps);
    let before = wal.entries(files);
    let after = wal_after.entries(files_after);
    let entry = entry_of(wal.next_entry_lsn, is_checkpoint, data);
    let here = entries_of(files_after.segments[wal_after.active_segment_id]);
    lemma_log_entries_last(
        files_after.segments,
        wal_after.oldest_segment_id,
        wal_after.active_segment_id,
    );
    assert(after.last() == here.last());
    let removed = if wal.must_rotate(size) && wal.is_full() {
        entries_of(files.segments[wal.oldest_segment_id])
    } else {
        Seq::empty()
    };
    lemma_what_is_left(before, entry, removed, after);
}

/// A rotation deletes nothing as long as there are fewer segments than the maximum: no segment is
/// removed, and all entries stay.
pub proof fn law_rotation_deletes_nothing_below_the_maximum(wal: WALView, files: Storage)
    requires
        wal.describes(files),
        wal.active_segment_id < u32::MAX,
        wal.active_segment_id - wal.oldest_segment_id + 1 < wal.max_segment_count,
    ensures
        ({
            let (wal_after, files_after) = done(wal, files, wal.rotation());
            &&& forall|i: int|
                0 <= i < wal.rotation().len() ==> !((#[trigger] wal.rotation()[i]) is RemoveSegment)
            &&& wal_after.oldest_segment_id == wal.oldest_segment_id
            &&& wal_after.active_segment_id == wal.active_segment_id + 1
            &&& forall|id: int| #[trigger]
                files.segments.dom().contains(id) ==> files_after.segments.dom().contains(id)
            &&& wal_after.entries(files_after) == wal.entries(files)
        }),
{
    law_rotation_keeps_the_entries(wal, files);
    let (wal_after, files_after) = done(wal, files, wal.rotation());
    assert(Seq::<EntryView>::empty() + wal_after.entries(files_after) =~= wal_after.entries(
        files_after,
    ));
}

/// No step of a write removes a segment as long as there are fewer than the maximum.
proof fn lemma_no_removal(wal: WALView, size: int, data: Seq<u8>, is_checkpoint: bool, i: int)
    requires
        wal.active_segment_id - wal.oldest_segment_id + 1 < wal.max_segment_count,
        0 <= i < wal.write_steps(size, data, is_checkpoint).len(),
    ensures
        !(wal.write_steps(size, data, is_checkpoint)[i] is RemoveSegment),
{
    let steps = wal.write_steps(size, data, is_checkpoint);
    let rotation = wal.required_rotation(size);
    let append = wal.append_steps(wal.target_segment(size), data, is_checkpoint);
    if i < rotation.len() {
        assert(steps[i] == rotation[i]);
    } else {
        assert(steps[i] == append[i - rotation.len()]);
    }
}

/// Steps that remove no segment leave the oldest as it is.
proof fn lemma_oldest_stays(wal: WALView, files: Storage, steps: Seq<Step>)
    requires
        forall|i: int| 0 <= i < steps.len() ==> !((#[trigger] steps[i]) is RemoveSegment),
    ensures
        done(wal, files, steps).0.oldest_segment_id == wal.oldest_segment_id,
    decreases steps.len(),
{
    if steps.len() > 0 {
        let earlier = steps.drop_last();
        assert forall|i: int| 0 <= i < earlier.len() implies !(
        (#[trigger] earlier[i]) is RemoveSegment) by {
            assert(earlier[i] == steps[i]);
        }
        lemma_oldest_stays(wal, files, earlier);
        assert(!(steps[steps.len() - 1] is RemoveSegment));
    }
}

/// A write deletes nothing as long as there are fewer segments than the maximum: no segment is
/// removed, and all entries stay, in front of the new one.
pub proof fn law_writing_deletes_nothing_below_the_maximum(
    wal: WALView,
    files: Storage,
    size: int,
    data: Seq<u8>,
    is_checkpoint: bool,
)
    requires
        wal.describes(files),
        wal.can_write(size, data, is_checkpoint),
        wal.active_segment_id - wal.oldest_segment_id + 1 < wal.max_segment_count,
    ensures
        ({
            let steps = wal.write_steps(size, data, is_checkpoint);
            let (wal_after, files_after) = done(wal, files, steps);
            &&& forall|i: int|
                0 <= i < steps.len() ==> !((#[trigger] steps[i]) is RemoveSegment)
            &&& wal_after.oldest_segment_id == wal.oldest_segment_id
            &&& forall|id: int| #[trigger]
                files.segments.dom().contains(id) ==> files_after.segments.dom().contains(id)
            &&& wal_after.entries(files_after).len() == wal.entries(files).len() + 1
            &&& wal_after.entries(files_after).drop_last() == wal.entries(files)
        }),
{
    let steps = wal.write_steps(size, data, is_checkpoint);
    let (wal_after, files_after) = done(wal, files, steps);
    assert forall|i: int| 0 <= i < steps.len() implies !(
    (#[trigger] steps[i]) is RemoveSegment) by {
        lemma_no_removal(wal, size, data, is_checkpoint, i);
    }
    lemma_oldest_stays(wal, files, steps);
    law_writing_adds_an_entry(wal, files, size, data, is_checkpoint);
    let entry = entry_of(wal.next_entry_lsn, is_checkpoint, data);
    assert(wal_after.entries(files_after) =~= wal.entries(files).push(entry));
    assert(wal.entries(files).push(entry).drop_last() =~= wal.entries(files));
}

/// A rotation makes one segment more, unless there are already as many as the maximum allows: then
/// there are as many as before.
pub proof fn law_count_after_a_rotation(wal: WALView, files: Storage)
    ensures
        ({
            let before = wal.active_segment_id - wal.oldest_segment_id + 1;
            let (wal_after, _) = done(wal, files, wal.rotation());
            let after = wal_after.active_segment_id - wal_after.oldest_segment_id + 1;
            after == if before >= 1 && before >= wal.max_segment_count {
                before
            } else {
                before + 1
            }
        }),
{
    let n = wal.rotation().len() as int;
    lemma_state_in_rotation(wal, files, n);
    assert(wal.rotation().take(n) =~= wal.rotation());
}

/// Each step of a write can be done in its turn.
pub proof fn law_every_step_can_be_done(
    wal: WALView,
    files: Storage,
    size: int,
    data: Seq<u8>,
    is_checkpoint: bool,
    n: int,
)
    requires
        wal.wf(),
        wal.can_write(size, data, is_checkpoint),
        0 <= n < wal.write_steps(size, data, is_checkpoint).len(),
    ensures
        ({
            let steps = wal.write_steps(size, data, is_checkpoint);
            done(wal, files, steps.take(n)).0.accepts(steps[n])
        }),
{
    let steps = wal.write_steps(size, data, is_checkpoint);
    let rotation = wal.required_rotation(size);
    let target = wal.target_segment(size);
    let append = wal.append_steps(target, data, is_checkpoint);
    let rotated = if n <= rotation.len() { n } else { rotation.len() as int };
    lemma_in_write_steps(wal, files, size, data, is_checkpoint, n);
    if wal.must_rotate(size) {
        lemma_state_in_rotation(wal, files, rotated);
    } else {
        assert(rotation.take(0) =~= Seq::empty());
    }
    if n < rotation.len() {
        assert(steps[n] == rotation[n]);
    } else {
        assert(rotation.take(rotated) =~= rotation);
        assert(steps[n] == append[n - rotation.len()]);
        let (between, files_between) = done(wal, files, rotation);
        if n > rotated {
            lemma_in_append_steps(between, files_between, target, data, is_checkpoint, n - rotated);
        }
    }
}

} // verus!
