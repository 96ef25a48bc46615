//! What can be recovered from the files of a log.

use vstd::prelude::*;

use crate::entry::{crc32, EntryView};
use crate::error::Fault;
use crate::history::{all_read, are_filled, entries_from, entries_of, lemma_all_stand_whole,
    lemma_appending_adds_behind, lemma_appending_keeps_entries_whole, lemma_found_entry,
    lemma_found_position, lemma_last_entry, lemma_log_entries_last, lemma_log_entries_same,
    lemma_log_entries_split, lemma_position_after_finds, lemma_position_after_in_longer_segment,
    lemma_replay, lemma_replay_of_a_part, lemma_replay_up_to_a_part, log_entries, replay, torn_end};
use crate::replayer::CursorView;
use crate::segment::{last_entry, last_start, whole_entries};
use crate::storage::{done, law_new_log, law_new_log_keeps_sizes, law_segment_count_is_bounded,
    law_writing_adds_an_entry, law_writing_deletes_nothing_below_the_maximum,
    law_writing_keeps_sizes, law_written_data_is_kept, Storage};
use crate::wal::{entry_of, lists_segment, Segments, Step, WALOptions, WALView};

verus! {

/// A replay from the latest checkpoint on gives every entry that was written after it, once and in
/// order, and then ends, as long as the segment that the checkpoint is in has not been deleted.
pub proof fn law_replay_gives_what_was_written(wal: WALView, files: Storage)
    requires
        wal.describes(files),
        files.checkpoint matches Some((segment_id, _)) && segment_id >= wal.oldest_segment_id,
    ensures
        ({
            let details = files.checkpoint->0;
            let entries = wal.entries(files);
            let first_lsn = wal.next_entry_lsn - entries.len();
            &&& first_lsn <= details.1 < wal.next_entry_lsn
            &&& CursorView::behind(details, files.segments[details.0 as int]) matches Ok(cursor)
                && cursor.wf() && replay(files.segments, cursor, wal.active_segment_id) == all_read(
                entries.skip(details.1 - first_lsn + 1),
            )
        }),
{
    let (segment_id, lsn) = files.checkpoint->0;
    let id = segment_id as int;
    let segment = files.segments[id];
    assert(files.segments.dom().contains(id));
    let kept = files.durable(id);
    let lost = segment.skip(kept.len() as int);
    assert(kept + lost =~= segment);
    lemma_position_after_in_longer_segment(kept, lost, 0, lsn);
    lemma_found_entry(segment, 0, lsn);
    let here = entries_of(segment);
    let all = wal.entries(files);
    let earlier = log_entries(files.segments, wal.oldest_segment_id, id - 1);
    let later = log_entries(files.segments, id + 1, wal.active_segment_id);
    lemma_log_entries_split(files.segments, wal.oldest_segment_id, id, wal.active_segment_id);
    assert(all == earlier + here + later);
    let first_lsn = wal.next_entry_lsn - all.len();
    let i = choose|i: int| 0 <= i < here.len() && (#[trigger] here[i]).lsn == lsn;
    assert(all[earlier.len() + i] == here[i]);
    assert forall|j: int| 0 <= j < i implies (#[trigger] here[j]).lsn != lsn by {
        assert(all[earlier.len() + j] == here[j]);
    }
    lemma_position_after_finds(segment, 0, here, i, lsn);
    let cursor = CursorView::behind((segment_id, lsn), segment)->Ok_0;
    lemma_replay(files.segments, cursor, wal.active_segment_id);
    assert(here.skip(i + 1) + later =~= all.skip(lsn - first_lsn + 1));
}

/// A request to write an entry that holds `data`, made when the active segment has `size` bytes.
pub struct Write {
    pub size: int,
    pub data: Seq<u8>,
    pub is_checkpoint: bool,
}

/// State and files after a row of writes.
pub open spec fn written(wal: WALView, files: Storage, writes: Seq<Write>) -> (WALView, Storage)
    decreases writes.len(),
{
    if writes.len() == 0 {
        (wal, files)
    } else {
        let (wal, files) = written(wal, files, writes.drop_last());
        let last = writes.last();
        done(wal, files, wal.write_steps(last.size, last.data, last.is_checkpoint))
    }
}

/// Whether each of a row of writes can be done in its turn.
pub open spec fn can_write_all(wal: WALView, files: Storage, writes: Seq<Write>) -> bool
    decreases writes.len(),
{
    if writes.len() == 0 {
        true
    } else {
        let last = writes.last();
        &&& can_write_all(wal, files, writes.drop_last())
        &&& written(wal, files, writes.drop_last()).0.can_write(
            last.size,
            last.data,
            last.is_checkpoint,
        )
    }
}

/// The entries that a row of writes makes, if the first of them has the given LSN.
pub open spec fn entries_written(first_lsn: int, writes: Seq<Write>) -> Seq<EntryView> {
    Seq::new(
        writes.len(),
        |i: int| entry_of(first_lsn + i, writes[i].is_checkpoint, writes[i].data),
    )
}

/// What a row of writes that are no checkpoints leaves: the entries it made, as far as they have
/// not been deleted, and the checkpoint there was.
proof fn lemma_written(wal: WALView, files: Storage, writes: Seq<Write>)
    requires
        wal.describes(files),
        can_write_all(wal, files, writes),
        forall|i: int| 0 <= i < writes.len() ==> !(#[trigger] writes[i]).is_checkpoint,
    ensures
        ({
            let (wal_after, files_after) = written(wal, files, writes);
            let entries = wal_after.entries(files_after);
            &&& wal_after.describes(files_after)
            &&& wal_after.next_entry_lsn == wal.next_entry_lsn + writes.len()
            &&& files_after.checkpoint == files.checkpoint
            &&& forall|i: int|
                0 <= i < entries.len() && (#[trigger] entries[i]).lsn >= wal.next_entry_lsn
                    ==> entries[i] == entries_written(wal.next_entry_lsn, writes)[entries[i].lsn
                    - wal.next_entry_lsn]
        }),
    decreases writes.len(),
{
    if writes.len() > 0 {
        let earlier = writes.drop_last();
        let last = writes.last();
        assert forall|i: int| 0 <= i < earlier.len() implies !(
        #[trigger] earlier[i]).is_checkpoint by {
            assert(earlier[i] == writes[i]);
        }
        assert(!writes[writes.len() - 1].is_checkpoint);
        lemma_written(wal, files, earlier);
        let (before, files_before) = written(wal, files, earlier);
        law_writing_adds_an_entry(before, files_before, last.size, last.data, false);
        let (after, files_after) = written(wal, files, writes);
        let entries_before = before.entries(files_before);
        let entries = after.entries(files_after);
        let entry = entry_of(before.next_entry_lsn, false, last.data);
        let removed = if before.must_rotate(last.size) && before.is_full() {
            entries_of(files_before.segments[before.oldest_segment_id])
        } else {
            Seq::empty()
        };
        let shift = removed.len();
        assert(entries_before.push(entry) == removed + entries);
        assert forall|i: int|
            0 <= i < entries.len() && (#[trigger] entries[i]).lsn
                >= wal.next_entry_lsn implies entries[i] == entries_written(
            wal.next_entry_lsn,
            writes,
        )[entries[i].lsn - wal.next_entry_lsn] by {
            assert(entries[i] == (removed + entries)[shift + i]);
            if shift + i < entries_before.len() {
                assert(entries[i] == entries_before[shift + i]);
            }
        }
    }
}

/// A replay gives what has been written since the latest checkpoint: each entry once, in the order
/// in which they were written, with consecutive LSNs, and nothing else.
pub proof fn law_replay_gives_all_writes_since_the_checkpoint(
    wal: WALView,
    files: Storage,
    checkpoint: Write,
    writes: Seq<Write>,
)
    requires
        wal.describes(files),
        checkpoint.is_checkpoint,
        wal.can_write(checkpoint.size, checkpoint.data, true),
        ({
            let (wal_then, files_then) = written(wal, files, seq![checkpoint]);
            let (wal_after, _) = written(wal_then, files_then, writes);
            &&& can_write_all(wal_then, files_then, writes)
            // The segment that the checkpoint is in has not been deleted since.
            &&& wal_after.oldest_segment_id <= wal.target_segment(checkpoint.size)
        }),
        forall|i: int| 0 <= i < writes.len() ==> !(#[trigger] writes[i]).is_checkpoint,
    ensures
        ({
            let (wal_then, files_then) = written(wal, files, seq![checkpoint]);
            let (wal_after, files_after) = written(wal_then, files_then, writes);
            let details = (
                wal.target_segment(checkpoint.size) as u32,
                wal.next_entry_lsn as u32,
            );
            &&& files_after.checkpoint == Some(details)
            &&& CursorView::behind(details, files_after.segments[details.0 as int]) matches Ok(
                cursor,
            ) && replay(files_after.segments, cursor, wal_after.active_segment_id) == all_read(
                entries_written(wal.next_entry_lsn + 1, writes),
            )
        }),
{
    let one = seq![checkpoint];
    assert(one.drop_last() =~= Seq::empty());
    assert(written(wal, files, one.drop_last()) == (wal, files));
    law_writing_adds_an_entry(wal, files, checkpoint.size, checkpoint.data, true);
    let (wal_then, files_then) = written(wal, files, one);
    lemma_written(wal_then, files_then, writes);
    let (wal_after, files_after) = written(wal_then, files_then, writes);
    law_replay_gives_what_was_written(wal_after, files_after);
    let entries = wal_after.entries(files_after);
    let first_lsn = wal_after.next_entry_lsn - entries.len();
    let since = entries.skip(wal.next_entry_lsn - first_lsn + 1);
    assert(since =~= entries_written(wal.next_entry_lsn + 1, writes)) by {
        assert forall|i: int| 0 <= i < since.len() implies since[i] == entries_written(
            wal.next_entry_lsn + 1,
            writes,
        )[i] by {
            assert(since[i] == entries[wal.next_entry_lsn - first_lsn + 1 + i]);
        }
    }
}

/// Losing what had not reached the disk does not lose the latest checkpoint: it is still found, at
/// the same place, whatever part of the rest is left.
pub proof fn law_checkpoint_survives_a_crash(wal: WALView, files: Storage, left: Seq<u8>)
    requires
        wal.describes(files),
        files.checkpoint matches Some((segment_id, _)) && segment_id >= wal.oldest_segment_id
            && files.durable(segment_id as int).is_prefix_of(left),
    ensures
        ({
            let details = files.checkpoint->0;
            &&& CursorView::behind(details, left) matches Ok(cursor)
            &&& CursorView::behind(details, files.segments[details.0 as int]) matches Ok(uncrashed)
            &&& cursor.reader.position == uncrashed.reader.position
        }),
{
    let (segment_id, lsn) = files.checkpoint->0;
    let id = segment_id as int;
    let segment = files.segments[id];
    assert(files.segments.dom().contains(id));
    let kept = files.durable(id);
    let more = left.skip(kept.len() as int);
    let lost = segment.skip(kept.len() as int);
    assert(kept + more =~= left);
    assert(kept + lost =~= segment);
    lemma_position_after_in_longer_segment(kept, more, 0, lsn);
    lemma_position_after_in_longer_segment(kept, lost, 0, lsn);
}

/// Behind the latest checkpoint the segment that it is in is filled with entries.
proof fn lemma_checkpoint_is_followed_by_entries(wal: WALView, files: Storage)
    requires
        wal.describes(files),
        files.checkpoint matches Some((segment_id, _)) && segment_id >= wal.oldest_segment_id,
    ensures
        ({
            let details = files.checkpoint->0;
            let segment = files.segments[details.0 as int];
            &&& CursorView::behind(details, segment) matches Ok(cursor)
            &&& cursor.wf()
            &&& entries_from(segment, cursor.reader.position) is Some
        }),
{
    let (segment_id, lsn) = files.checkpoint->0;
    let segment = files.segments[segment_id as int];
    assert(files.segments.dom().contains(segment_id as int));
    law_checkpoint_survives_a_crash(wal, files, segment);
    lemma_found_position(segment, 0, lsn);
}

/// What may be left of the segments after a crash: all that had reached the disk for certain, and
/// any part of what was written after that.
pub open spec fn left_by_a_crash(files: Storage, left: Map<int, Seq<u8>>) -> bool {
    &&& left.dom() == files.segments.dom()
    &&& forall|id: int| #[trigger]
        left.dom().contains(id) ==> files.durable(id).is_prefix_of(left[id])
            && left[id].is_prefix_of(files.segments[id])
}

/// What a crash leaves of the segments other than the active one is all of them.
proof fn lemma_crash_spares_full_segments(
    wal: WALView,
    files: Storage,
    left: Map<int, Seq<u8>>,
    id: int,
)
    requires
        wal.describes(files),
        left_by_a_crash(files, left),
        wal.oldest_segment_id <= id < wal.active_segment_id,
    ensures
        left[id] == files.segments[id],
{
    assert(left.dom().contains(id));
    assert(files.is_synced(id));
    assert(files.durable(id) =~= files.segments[id]);
    assert(left[id] =~= files.segments[id]);
}

/// What a crash leaves of the active segment.
proof fn lemma_crash_cuts_the_active_segment(
    wal: WALView,
    files: Storage,
    left: Map<int, Seq<u8>>,
)
    requires
        wal.describes(files),
        wal.segment_count() > 0,
        left_by_a_crash(files, left),
    ensures
        ({
            let active = wal.active_segment_id;
            let whole = files.segments[active];
            let part = left[active];
            &&& whole == part + whole.skip(part.len() as int)
            &&& whole_entries(whole, 0) == entries_of(whole).len()
            &&& whole_entries(files.durable(active), 0) <= whole_entries(part, 0)
                <= whole_entries(whole, 0)
        }),
{
    let active = wal.active_segment_id;
    assert(left.dom().contains(active));
    let whole = files.segments[active];
    let part = left[active];
    let lost = whole.skip(part.len() as int);
    assert(part + lost =~= whole);
    lemma_all_stand_whole(whole, 0);
    lemma_appending_keeps_entries_whole(part, lost, 0);
    let durable = files.durable(active);
    let more = part.skip(durable.len() as int);
    assert(durable + more =~= part);
    lemma_appending_keeps_entries_whole(durable, more, 0);
}

/// A replay after a crash, where the latest checkpoint is in the active segment.
proof fn lemma_replay_of_the_active_segment(
    wal: WALView,
    files: Storage,
    left: Map<int, Seq<u8>>,
    cursor: CursorView,
    uncrashed: CursorView,
)
    requires
        wal.describes(files),
        left_by_a_crash(files, left),
        files.checkpoint matches Some((segment_id, _)) && segment_id >= wal.oldest_segment_id
            && segment_id == wal.active_segment_id,
        ({
            let details = files.checkpoint->0;
            let id = details.0 as int;
            &&& CursorView::behind(details, left[id]) == Ok::<CursorView, Fault>(cursor)
            &&& CursorView::behind(details, files.segments[id]) == Ok::<CursorView, Fault>(
                uncrashed,
            )
        }),
        cursor.reader.position == uncrashed.reader.position,
    ensures
        ({
            let active = wal.active_segment_id;
            let all = replay(files.segments, uncrashed, active);
            let lost = whole_entries(files.segments[active], 0) - whole_entries(left[active], 0);
            &&& lost <= all.len()
            &&& replay(left, cursor, active) == all.take(all.len() - lost) + torn_end(left[active])
        }),
{
    let lsn = (files.checkpoint->0).1;
    let active = wal.active_segment_id;
    let position = cursor.reader.position;
    let whole = files.segments[active];
    let part = left[active];
    let lost = whole.skip(part.len() as int);
    lemma_crash_cuts_the_active_segment(wal, files, left);
    lemma_checkpoint_is_followed_by_entries(wal, files);
    lemma_replay(files.segments, uncrashed, active);
    lemma_appending_adds_behind(part, lost, 0, lsn);
    lemma_all_stand_whole(whole, position);
    lemma_replay_of_a_part(left, cursor, active, lost);
    let here = entries_from(whole, position)->0;
    let n = whole_entries(part, position) as int;
    assert(here + log_entries(files.segments, active + 1, active) =~= here);
    assert(all_read(here).take(n) =~= all_read(here.take(n)));
}

/// A replay of what a crash left, from a place that is not in the active segment.
proof fn lemma_replay_of_what_is_left(
    wal: WALView,
    files: Storage,
    left: Map<int, Seq<u8>>,
    cursor: CursorView,
)
    requires
        wal.describes(files),
        left_by_a_crash(files, left),
        wal.oldest_segment_id <= cursor.segment_id < wal.active_segment_id,
        cursor.reader.wf(),
        entries_from(cursor.reader.segment, cursor.reader.position) is Some,
    ensures
        ({
            let active = wal.active_segment_id;
            replay(left, cursor, active) == all_read(
                entries_from(cursor.reader.segment, cursor.reader.position)->0 + log_entries(
                    left,
                    cursor.segment_id + 1,
                    active - 1,
                ) + entries_of(files.segments[active]).take(whole_entries(left[active], 0) as int),
            ) + torn_end(left[active])
        }),
{
    let active = wal.active_segment_id;
    let whole = files.segments[active];
    lemma_crash_cuts_the_active_segment(wal, files, left);
    assert(files.segments.dom().contains(active));
    assert(are_filled(left, cursor.segment_id + 1, active - 1)) by {
        assert forall|id: int| cursor.segment_id + 1 <= id <= active - 1 implies #[trigger]
            left.dom().contains(id) && entries_from(left[id], 0) is Some by {
            lemma_crash_spares_full_segments(wal, files, left, id);
            assert(files.segments.dom().contains(id));
        }
    }
    lemma_replay_up_to_a_part(left, cursor, active, whole.skip(left[active].len() as int));
}

/// A replay after a crash, where the latest checkpoint is not in the active segment.
proof fn lemma_replay_up_to_the_active_segment(
    wal: WALView,
    files: Storage,
    left: Map<int, Seq<u8>>,
    cursor: CursorView,
)
    requires
        wal.describes(files),
        left_by_a_crash(files, left),
        files.checkpoint matches Some((segment_id, _)) && wal.oldest_segment_id <= segment_id
            < wal.active_segment_id,
        CursorView::behind(files.checkpoint->0, files.segments[(files.checkpoint->0).0 as int])
            == Ok::<CursorView, Fault>(cursor),
    ensures
        ({
            let active = wal.active_segment_id;
            let all = replay(files.segments, cursor, active);
            let lost = whole_entries(files.segments[active], 0) - whole_entries(left[active], 0);
            &&& lost <= all.len()
            &&& replay(left, cursor, active) == all.take(all.len() - lost) + torn_end(left[active])
        }),
{
    let id = (files.checkpoint->0).0 as int;
    let active = wal.active_segment_id;
    let segments = files.segments;
    let whole = segments[active];
    let lost = whole.skip(left[active].len() as int);
    lemma_crash_cuts_the_active_segment(wal, files, left);
    lemma_checkpoint_is_followed_by_entries(wal, files);
    let here = entries_from(segments[id], cursor.reader.position)->0;
    let between = log_entries(segments, id + 1, active - 1);
    let last = entries_of(whole);
    let n = whole_entries(left[active], 0) as int;
    assert(replay(segments, cursor, active) == all_read(
        here + log_entries(segments, id + 1, active),
    )) by {
        lemma_replay(segments, cursor, active);
    }
    assert(between == log_entries(left, id + 1, active - 1)) by {
        assert forall|other: int| id + 1 <= other <= active - 1 implies #[trigger] segments[other]
            == left[other] by {
            lemma_crash_spares_full_segments(wal, files, left, other);
        }
        lemma_log_entries_same(segments, left, id + 1, active - 1);
    }
    lemma_replay_of_what_is_left(wal, files, left, cursor);
    lemma_log_entries_last(segments, id + 1, active);
    assert(here + log_entries(segments, id + 1, active) =~= here + between + last);
    assert(all_read(here + between + last).take((here + between).len() + n) =~= all_read(
        here + between + last.take(n),
    ));
}

/// After a crash a replay gives what it would have given without, up to the last entry that is left
/// whole. None that had reached the disk is missing. If an entry was cut off, the replay reports
/// that at the end.
pub proof fn law_replay_after_a_crash(wal: WALView, files: Storage, left: Map<int, Seq<u8>>)
    requires
        wal.describes(files),
        files.checkpoint matches Some((segment_id, _)) && segment_id >= wal.oldest_segment_id,
        left_by_a_crash(files, left),
    ensures
        ({
            let details = files.checkpoint->0;
            let id = details.0 as int;
            let active = wal.active_segment_id;
            &&& CursorView::behind(details, left[id]) matches Ok(cursor)
            &&& CursorView::behind(details, files.segments[id]) matches Ok(uncrashed)
            &&& {
                let all = replay(files.segments, uncrashed, active);
                let lost = whole_entries(files.segments[active], 0) - whole_entries(left[active], 0);
                &&& 0 <= lost <= all.len()
                &&& replay(left, cursor, active) == all.take(all.len() - lost) + torn_end(
                    left[active],
                )
            }
            &&& whole_entries(files.durable(active), 0) <= whole_entries(left[active], 0)
        }),
{
    let details = files.checkpoint->0;
    let id = details.0 as int;
    assert(left.dom().contains(id));
    law_checkpoint_survives_a_crash(wal, files, left[id]);
    lemma_crash_cuts_the_active_segment(wal, files, left);
    let uncrashed = CursorView::behind(details, files.segments[id])->Ok_0;
    if id == wal.active_segment_id {
        let cursor = CursorView::behind(details, left[id])->Ok_0;
        lemma_replay_of_the_active_segment(wal, files, left, cursor, uncrashed);
    } else {
        lemma_crash_spares_full_segments(wal, files, left, id);
        lemma_replay_up_to_the_active_segment(wal, files, left, uncrashed);
    }
}

/// What a row of writes leaves: a log with that many entries more, the last of them in the active
/// segment.
proof fn lemma_after_writes(wal: WALView, files: Storage, writes: Seq<Write>)
    requires
        wal.describes(files),
        can_write_all(wal, files, writes),
    ensures
        ({
            let (wal_after, files_after) = written(wal, files, writes);
            &&& wal_after.describes(files_after)
            &&& wal_after.next_entry_lsn == wal.next_entry_lsn + writes.len()
            &&& writes.len() > 0 ==> wal_after.segment_count() > 0 && entries_of(
                files_after.segments[wal_after.active_segment_id],
            ).len() > 0
        }),
    decreases writes.len(),
{
    if writes.len() > 0 {
        let last = writes.last();
        lemma_after_writes(wal, files, writes.drop_last());
        let (before, files_before) = written(wal, files, writes.drop_last());
        law_writing_adds_an_entry(
            before,
            files_before,
            last.size,
            last.data,
            last.is_checkpoint,
        );
    }
}

/// Opening a log again leads back to the state in which it was left, with the same entries, if an
/// entry has been written to the active segment.
pub proof fn law_reopening_restores_the_state(
    wal: WALView,
    files: Storage,
    options: WALOptions,
    file_names: Seq<Vec<u8>>,
    segments: Segments,
)
    requires
        wal.describes(files),
        wal.segment_count() > 0,
        entries_of(files.segments[wal.active_segment_id]).len() > 0,
        forall|id: u32| #[trigger]
            lists_segment(file_names, id) <==> files.segments.dom().contains(id as int),
        segments.found_in(file_names),
    ensures
        segments.preexist,
        last_entry(files.segments[wal.active_segment_id]) matches Ok(entry) && entry.lsn < u32::MAX
            && ({
            let reopened = WALView::opened(options, segments, entry.lsn + 1);
            &&& reopened.oldest_segment_id == wal.oldest_segment_id
            &&& reopened.active_segment_id == wal.active_segment_id
            &&& reopened.next_entry_lsn == wal.next_entry_lsn
            &&& reopened.describes(files)
            &&& reopened.entries(files) == wal.entries(files)
        }),
{
    let active = wal.active_segment_id;
    let segment = files.segments[active];
    let here = entries_of(segment);
    let all = wal.entries(files);
    assert(files.segments.dom().contains(active));
    assert(files.segments.dom().contains(wal.oldest_segment_id));
    assert(lists_segment(file_names, active as u32));
    assert(lists_segment(file_names, wal.oldest_segment_id as u32));
    assert(files.segments.dom().contains(segments.oldest as int));
    assert(files.segments.dom().contains(segments.active as int));
    lemma_last_entry(segment, 0);
    lemma_log_entries_last(files.segments, wal.oldest_segment_id, active);
    assert(all[all.len() - 1] == here.last());
}

/// Opening a log again after one write or more leads back to the state in which it was left: the LSN
/// has gone up by the number of writes, and the segments and the entries are the same.
pub proof fn law_reopening_after_writes(
    wal: WALView,
    files: Storage,
    writes: Seq<Write>,
    options: WALOptions,
    file_names: Seq<Vec<u8>>,
    segments: Segments,
)
    requires
        wal.describes(files),
        can_write_all(wal, files, writes),
        writes.len() > 0,
        forall|id: u32| #[trigger]
            lists_segment(file_names, id) <==> written(
                wal,
                files,
                writes,
            ).1.segments.dom().contains(id as int),
        segments.found_in(file_names),
    ensures
        segments.preexist,
        ({
            let (left, files_left) = written(wal, files, writes);
            &&& last_entry(files_left.segments[segments.active as int]) matches Ok(entry)
            &&& entry.lsn < u32::MAX
            &&& {
                let reopened = WALView::opened(options, segments, entry.lsn + 1);
                &&& reopened.next_entry_lsn == wal.next_entry_lsn + writes.len()
                &&& reopened.oldest_segment_id == left.oldest_segment_id
                &&& reopened.active_segment_id == left.active_segment_id
                &&& reopened.describes(files_left)
                &&& reopened.entries(files_left) == left.entries(files_left)
            }
        }),
{
    lemma_after_writes(wal, files, writes);
    let (left, files_left) = written(wal, files, writes);
    law_reopening_restores_the_state(left, files_left, options, file_names, segments);
}

/// A log that was created and then written to, once or more, is found with the segments that it was
/// left with, and its next LSN is the number of writes.
pub proof fn law_reopening_a_new_log(
    options: WALOptions,
    writes: Seq<Write>,
    file_names: Seq<Vec<u8>>,
    segments: Segments,
)
    requires
        writes.len() > 0,
        ({
            let none = Segments { preexist: false, oldest: 0, active: 0 };
            let wal = WALView::opened(options, none, 0);
            let (_, files_left) = written(wal, Storage::created(), writes);
            &&& can_write_all(wal, Storage::created(), writes)
            &&& forall|id: u32| #[trigger]
                lists_segment(file_names, id) <==> files_left.segments.dom().contains(id as int)
        }),
        segments.found_in(file_names),
    ensures
        segments.preexist,
        ({
            let none = Segments { preexist: false, oldest: 0, active: 0 };
            let wal = WALView::opened(options, none, 0);
            let (left, files_left) = written(wal, Storage::created(), writes);
            &&& last_entry(files_left.segments[segments.active as int]) matches Ok(entry)
            &&& entry.lsn + 1 == writes.len()
            &&& segments.oldest == left.oldest_segment_id
            &&& segments.active == left.active_segment_id
        }),
{
    let none = Segments { preexist: false, oldest: 0, active: 0 };
    let wal = WALView::opened(options, none, 0);
    law_new_log(options);
    law_reopening_after_writes(
        wal,
        Storage::created(),
        writes,
        options,
        file_names,
        segments,
    );
}

/// A replay gives back the data that has been written since the latest checkpoint: as many entries as
/// there were writes, each with the bytes that were handed to its write, all of them and no others,
/// in the order of the writes and with the LSNs that follow that of the checkpoint.
pub proof fn law_replay_gives_the_data_back(
    wal: WALView,
    files: Storage,
    checkpoint: Write,
    writes: Seq<Write>,
)
    requires
        wal.describes(files),
        checkpoint.is_checkpoint,
        wal.can_write(checkpoint.size, checkpoint.data, true),
        ({
            let (wal_then, files_then) = written(wal, files, seq![checkpoint]);
            let (wal_after, _) = written(wal_then, files_then, writes);
            &&& can_write_all(wal_then, files_then, writes)
            // The segment that the checkpoint is in has not been deleted since.
            &&& wal_after.oldest_segment_id <= wal.target_segment(checkpoint.size)
        }),
        forall|i: int| 0 <= i < writes.len() ==> !(#[trigger] writes[i]).is_checkpoint,
    ensures
        ({
            let (wal_then, files_then) = written(wal, files, seq![checkpoint]);
            let (wal_after, files_after) = written(wal_then, files_then, writes);
            &&& files_after.checkpoint matches Some(details)
            &&& CursorView::behind(details, files_after.segments[details.0 as int]) matches Ok(cursor)
            &&& {
                let replayed = replay(files_after.segments, cursor, wal_after.active_segment_id);
                &&& replayed.len() == writes.len()
                &&& forall|i: int|
                    #![trigger replayed[i]]
                    0 <= i < writes.len() ==> (replayed[i] matches Ok(entry) && entry.data
                        == writes[i].data && entry.is_checkpoint == writes[i].is_checkpoint
                        && entry.lsn == wal.next_entry_lsn + 1 + i && entry.crc == crc32(
                        writes[i].data,
                    ))
            }
        }),
{
    law_replay_gives_all_writes_since_the_checkpoint(wal, files, checkpoint, writes);
    let one = seq![checkpoint];
    assert(one.drop_last() =~= Seq::empty());
    assert(written(wal, files, one.drop_last()) == (wal, files));
    law_writing_adds_an_entry(wal, files, checkpoint.size, checkpoint.data, true);
    let (wal_then, files_then) = written(wal, files, one);
    lemma_written(wal_then, files_then, writes);
    let (wal_after, files_after) = written(wal_then, files_then, writes);
    assert(wal_after.next_entry_lsn <= u32::MAX);
    let details = files_after.checkpoint->0;
    let cursor = CursorView::behind(details, files_after.segments[details.0 as int])->Ok_0;
    let replayed = replay(files_after.segments, cursor, wal_after.active_segment_id);
    assert forall|i: int|
        #![trigger replayed[i]]
        0 <= i < writes.len() implies (replayed[i] matches Ok(entry) && entry.data == writes[i].data
        && entry.is_checkpoint == writes[i].is_checkpoint && entry.lsn == wal.next_entry_lsn + 1 + i
        && entry.crc == crc32(writes[i].data)) by {
        let entries = entries_written(wal.next_entry_lsn + 1, writes);
        assert(replayed[i] == Ok::<EntryView, Fault>(entries[i]));
    }
}

/// Whether each of a row of writes is told the size that the active segment has in its turn.
pub open spec fn sizes_are_true(wal: WALView, files: Storage, writes: Seq<Write>) -> bool
    decreases writes.len(),
{
    if writes.len() == 0 {
        true
    } else {
        let (before, files_before) = written(wal, files, writes.drop_last());
        &&& sizes_are_true(wal, files, writes.drop_last())
        &&& writes.last().size == files_before.segments[before.active_segment_id].len()
    }
}

/// A row of writes keeps to the maximum size and number of segments.
proof fn lemma_writes_keep_sizes(wal: WALView, files: Storage, writes: Seq<Write>)
    requires
        wal.describes(files),
        wal.keeps_sizes(files),
        can_write_all(wal, files, writes),
        sizes_are_true(wal, files, writes),
        wal.segment_count() <= 1 || wal.segment_count() <= wal.max_segment_count,
    ensures
        ({
            let (wal_after, files_after) = written(wal, files, writes);
            &&& wal_after.describes(files_after)
            &&& wal_after.keeps_sizes(files_after)
            &&& wal_after.max_segment_size == wal.max_segment_size
            &&& wal_after.max_segment_count == wal.max_segment_count
            &&& wal_after.segment_count() <= 1 || wal_after.segment_count()
                <= wal.max_segment_count
        }),
    decreases writes.len(),
{
    if writes.len() > 0 {
        let Write { size, data, is_checkpoint } = writes.last();
        lemma_writes_keep_sizes(wal, files, writes.drop_last());
        let (before, files_before) = written(wal, files, writes.drop_last());
        let steps = before.write_steps(size, data, is_checkpoint);
        let n = steps.len() as int;
        assert(steps.take(n) =~= steps);
        law_writing_adds_an_entry(before, files_before, size, data, is_checkpoint);
        law_writing_keeps_sizes(before, files_before, size, data, is_checkpoint, n);
        law_segment_count_is_bounded(before, files_before, size, data, is_checkpoint, n);
        lemma_writing_keeps_the_options(before, files_before, steps);
    }
}

/// No row of steps changes where and how a log is kept.
proof fn lemma_writing_keeps_the_options(wal: WALView, files: Storage, steps: Seq<Step>)
    ensures
        done(wal, files, steps).0.dir == wal.dir,
        done(wal, files, steps).0.checkpoint_file == wal.checkpoint_file,
        done(wal, files, steps).0.max_segment_size == wal.max_segment_size,
        done(wal, files, steps).0.max_segment_count == wal.max_segment_count,
    decreases steps.len(),
{
    if steps.len() > 0 {
        lemma_writing_keeps_the_options(wal, files, steps.drop_last());
    }
}

/// A log keeps to the options that it was opened with, however much is written to it. What stands in
/// a segment in front of its last entry is less than the maximum size in the options, every segment
/// but the active one has reached that size, and there are no more segments than the options allow
/// (but one there always is).
pub proof fn law_log_keeps_to_its_options(options: WALOptions, writes: Seq<Write>, id: int)
    requires
        ({
            let none = Segments { preexist: false, oldest: 0, active: 0 };
            let wal = WALView::opened(options, none, 0);
            &&& can_write_all(wal, Storage::created(), writes)
            &&& sizes_are_true(wal, Storage::created(), writes)
        }),
    ensures
        ({
            let none = Segments { preexist: false, oldest: 0, active: 0 };
            let wal = WALView::opened(options, none, 0);
            let (left, files_left) = written(wal, Storage::created(), writes);
            let count = left.active_segment_id - left.oldest_segment_id + 1;
            &&& count <= 1 || count <= options.max_segment_count
            &&& files_left.segments.dom().contains(id) ==> {
                let segment = files_left.segments[id];
                let last = last_start(segment, 0);
                &&& entries_from(segment, 0) is Some
                &&& last == 0 || last < options.max_segment_size
                &&& id != left.active_segment_id ==> segment.len() >= options.max_segment_size
            }
        }),
{
    let none = Segments { preexist: false, oldest: 0, active: 0 };
    let wal = WALView::opened(options, none, 0);
    law_new_log(options);
    law_new_log_keeps_sizes(options);
    lemma_writes_keep_sizes(wal, Storage::created(), writes);
}

/// Until the options call for it, nothing that was written is lost: while a log has fewer segments
/// than its options allow, each write leaves all entries of the log in place, and adds one.
pub proof fn law_entries_stay_while_the_options_allow(
    options: WALOptions,
    writes: Seq<Write>,
    write: Write,
)
    requires
        ({
            let none = Segments { preexist: false, oldest: 0, active: 0 };
            let wal = WALView::opened(options, none, 0);
            let (left, _) = written(wal, Storage::created(), writes);
            &&& can_write_all(wal, Storage::created(), writes)
            &&& left.can_write(write.size, write.data, write.is_checkpoint)
            &&& left.active_segment_id - left.oldest_segment_id + 1 < options.max_segment_count
        }),
    ensures
        ({
            let none = Segments { preexist: false, oldest: 0, active: 0 };
            let wal = WALView::opened(options, none, 0);
            let (left, files_left) = written(wal, Storage::created(), writes);
            let (after, files_after) = written(wal, Storage::created(), writes.push(write));
            let entries = after.entries(files_after);
            &&& entries.len() == left.entries(files_left).len() + 1
            &&& entries.drop_last() == left.entries(files_left)
            &&& entries.last().data == write.data
        }),
{
    let none = Segments { preexist: false, oldest: 0, active: 0 };
    let wal = WALView::opened(options, none, 0);
    law_new_log(options);
    lemma_after_writes(wal, Storage::created(), writes);
    lemma_writes_keep_the_options(wal, Storage::created(), writes);
    let (left, files_left) = written(wal, Storage::created(), writes);
    assert(writes.push(write).drop_last() =~= writes);
    let Write { size, data, is_checkpoint } = write;
    law_writing_deletes_nothing_below_the_maximum(left, files_left, size, data, is_checkpoint);
    law_written_data_is_kept(left, files_left, size, data, is_checkpoint);
}

/// No row of writes changes where and how a log is kept.
proof fn lemma_writes_keep_the_options(wal: WALView, files: Storage, writes: Seq<Write>)
    ensures
        written(wal, files, writes).0.max_segment_size == wal.max_segment_size,
        written(wal, files, writes).0.max_segment_count == wal.max_segment_count,
    decreases writes.len(),
{
    if writes.len() > 0 {
        let last = writes.last();
        lemma_writes_keep_the_options(wal, files, writes.drop_last());
        let (before, files_before) = written(wal, files, writes.drop_last());
        lemma_writing_keeps_the_options(
            before,
            files_before,
            before.write_steps(last.size, last.data, last.is_checkpoint),
        );
    }
}

} // verus!
