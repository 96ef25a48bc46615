//! What the entries of a log are, and how reading finds them.

use vstd::prelude::*;

use crate::entry::{crc32, intact_entry, law_decoding_undoes_encoding, EntryView};
use crate::error::Fault;
use crate::files::LSN;
use crate::replayer::{contents, position_after, CursorView, OpenError, ReplayedView};
use crate::segment::{entry_at, entry_end, is_torn, last_encoding, last_entry, last_start, le32,
    le32_bytes, whole_entries, ReaderView};

verus! {

impl EntryView {
    /// The data has the checksum that is stored with it, and the size of the encoding fits in front
    /// of it.
    pub open spec fn sound(self) -> bool {
        &&& self.crc == crc32(self.data)
        &&& self.encoding().len() <= u32::MAX
    }
}

/// The entries that fill a segment from `position` on.
pub open spec fn entries_from(segment: Seq<u8>, position: int) -> Option<Seq<EntryView>>
    decreases segment.len() - position,
{
    if position == segment.len() {
        Some(Seq::empty())
    } else {
        match entry_at(segment, position) {
            (Ok(entry), end) => match entries_from(segment, end) {
                Some(rest) => Some(seq![entry] + rest),
                None => None,
            },
            (Err(_), _) => None,
        }
    }
}

/// The entries of a segment that is filled with entries.
pub open spec fn entries_of(segment: Seq<u8>) -> Seq<EntryView> {
    entries_from(segment, 0)->0
}

/// The segments from `first` to `last` are there, and are filled with entries.
pub open spec fn are_filled(segments: Map<int, Seq<u8>>, first: int, last: int) -> bool {
    forall|id: int|
        first <= id <= last ==> #[trigger] segments.dom().contains(id) && entries_from(
            segments[id],
            0,
        ) is Some
}

/// The entries of the segments from `first` to `last`, in order.
pub open spec fn log_entries(segments: Map<int, Seq<u8>>, first: int, last: int) -> Seq<EntryView>
    decreases last - first + 1,
{
    if first > last {
        Seq::empty()
    } else {
        entries_of(segments[first]) + log_entries(segments, first + 1, last)
    }
}

/// What a replay gives that goes on from `cursor` until the next segment is not among `segments` or
/// comes after `last`.
pub open spec fn replay(segments: Map<int, Seq<u8>>, cursor: CursorView, last: int) -> Seq<
    Result<EntryView, Fault>,
>
    decreases last - cursor.segment_id, cursor.reader.segment.len() - cursor.reader.position,
    when cursor.reader.wf()
{
    match cursor.next() {
        (Ok(ReplayedView::NextSegment(id)), _) => if id <= last && segments.dom().contains(id) {
            replay(segments, cursor.in_next_segment(Some(segments[id])), last)
        } else {
            Seq::empty()
        },
        (Ok(ReplayedView::Entry(entry)), further) => seq![Ok(entry)] + replay(
            segments,
            further,
            last,
        ),
        (Err(fault), further) => seq![Err(fault)] + replay(segments, further, last),
    }
}

/// What reading the end of a segment gives, if an entry there was cut off.
pub open spec fn torn_end(segment: Seq<u8>) -> Seq<Result<EntryView, Fault>> {
    if is_torn(segment, 0) {
        seq![Err(Fault::UnexpectedEof)]
    } else {
        Seq::empty()
    }
}

/// All entries, read without a fault.
pub open spec fn all_read(entries: Seq<EntryView>) -> Seq<Result<EntryView, Fault>> {
    Seq::new(entries.len(), |i: int| Ok(entries[i]))
}

/// Four bytes give back the number that they were made from.
pub proof fn lemma_le32(number: u32)
    ensures
        le32(le32_bytes(number)) == number,
{
}

/// What has been written is immutable: an entry is read the same after more has been appended to
/// its segment.
pub proof fn law_appending_changes_no_entry(segment: Seq<u8>, tail: Seq<u8>, position: int)
    requires
        0 <= position,
        entry_end(segment, position) is Some,
    ensures
        entry_at(segment + tail, position) == entry_at(segment, position),
        entry_end(segment + tail, position) == entry_end(segment, position),
{
    let longer = segment + tail;
    assert(longer.subrange(position, position + 4) =~= segment.subrange(position, position + 4));
    let end = entry_end(segment, position)->0;
    assert(longer.subrange(position + 4, end) =~= segment.subrange(position + 4, end));
}

/// Reading at the place where an entry was appended gives the entry, and leaves the reader at its
/// end.
pub proof fn law_reading_undoes_appending(segment: Seq<u8>, entry: EntryView, tail: Seq<u8>)
    requires
        entry.sound(),
    ensures
        entry_at(segment + entry.frame() + tail, segment.len() as int) == (
            Ok::<EntryView, Fault>(entry),
            (segment.len() + entry.frame().len()) as int,
        ),
{
    let start = segment.len() as int;
    let size = entry.encoding().len() as u32;
    let whole = segment + entry.frame() + tail;
    assert(whole.subrange(start, start + 4) =~= le32_bytes(size));
    lemma_le32(size);
    let end = start + 4 + size;
    assert(whole.subrange(start + 4, end) =~= entry.encoding());
    crate::entry::lemma_encoding_covers_data(entry);
    law_decoding_undoes_encoding(entry);
}

/// An entry that was read has the checksum that was stored with it: no other is ever returned.
pub proof fn law_only_intact_entries_are_read(segment: Seq<u8>, position: int)
    ensures
        entry_at(segment, position).0 matches Ok(entry) ==> entry.crc == crc32(entry.data),
{
}

/// Appending an entry to a segment adds it to the segment's entries, at the end.
pub proof fn law_appending_adds_an_entry(segment: Seq<u8>, position: int, entry: EntryView)
    requires
        entry.sound(),
        0 <= position <= segment.len(),
        entries_from(segment, position) is Some,
    ensures
        entries_from(segment + entry.frame(), position) == Some(
            entries_from(segment, position)->0.push(entry),
        ),
    decreases segment.len() - position,
{
    let longer = segment + entry.frame();
    if position == segment.len() {
        law_reading_undoes_appending(segment, entry, Seq::empty());
        assert(longer + Seq::<u8>::empty() =~= longer);
        assert(entries_from(longer, longer.len() as int) == Some(Seq::<EntryView>::empty()));
        assert(seq![entry] + Seq::<EntryView>::empty() =~= Seq::<EntryView>::empty().push(entry));
    } else {
        law_appending_changes_no_entry(segment, entry.frame(), position);
        let (first, end) = entry_at(segment, position);
        law_appending_adds_an_entry(segment, end, entry);
        let rest = entries_from(segment, end)->0;
        assert(seq![first->Ok_0] + rest.push(entry) =~= (seq![first->Ok_0] + rest).push(entry));
    }
}

/// In a segment stands the size of an entry's encoding, in four bytes with the lowest first, and then
/// the encoding. Of a size that takes more than 32 bits the low 32 are there.
pub proof fn law_frame_layout(entry: EntryView)
    ensures
        ({
            let frame = entry.frame();
            let size = entry.encoding().len();
            &&& frame.len() == 4 + size
            &&& frame.skip(4) == entry.encoding()
            &&& frame[0] + 256 * frame[1] + 65536 * frame[2] + 16777216 * frame[3] == size
                % 0x1_0000_0000
        }),
{
    let size = (entry.encoding().len() % 0x1_0000_0000) as u32;
    lemma_le32(size);
    let frame = entry.frame();
    assert(frame.take(4) =~= le32_bytes(size));
    assert(frame.skip(4) =~= entry.encoding());
    assert(le32(frame.take(4)) == frame[0] + 256 * frame[1] + 65536 * frame[2] + 16777216
        * frame[3]);
}

/// Reading takes as many bytes as the four in front of them say, verifies what they hold, and goes
/// on behind them. If there are fewer, it says so, and nothing is left to read.
pub proof fn law_entry_is_read_by_its_size(segment: Seq<u8>, position: int)
    requires
        0 <= position <= segment.len(),
    ensures
        ({
            let size = segment[position] + 256 * segment[position + 1] + 65536 * segment[position
                + 2] + 16777216 * segment[position + 3];
            let end = position + 4 + size;
            if position + 4 <= segment.len() && end <= segment.len() {
                &&& entry_end(segment, position) == Some(end)
                &&& entry_at(segment, position) == (
                    intact_entry(segment.subrange(position + 4, end)),
                    end,
                )
            } else {
                &&& entry_end(segment, position) is None
                &&& entry_at(segment, position) == (
                    Err::<EntryView, Fault>(Fault::UnexpectedEof),
                    segment.len() as int,
                )
            }
        }),
{
}

/// Behind entries that stand whole, the last encoding is that of the entry which fills the rest.
proof fn lemma_last_encoding(before: Seq<u8>, last: Seq<u8>, position: int)
    requires
        0 <= position <= before.len(),
        !is_torn(before, position),
        last.len() > 0,
        entry_end(before + last, before.len() as int) == Some((before + last).len() as int),
    ensures
        last_encoding(before + last, position) == Some(last.skip(4)),
    decreases before.len() - position,
{
    if let Some(end) = entry_end(before, position) {
        law_appending_changes_no_entry(before, last, position);
        lemma_last_encoding(before, last, end);
    } else {
        let whole = before + last;
        assert(whole.subrange(before.len() as int + 4, whole.len() as int) =~= last.skip(4));
    }
}

/// A segment without entries, or with one that was cut off, has no last encoding.
proof fn lemma_no_last_encoding(segment: Seq<u8>, position: int)
    requires
        0 <= position <= segment.len(),
        is_torn(segment, position) || position == segment.len(),
    ensures
        last_encoding(segment, position) is None,
    decreases segment.len() - position,
{
    if let Some(end) = entry_end(segment, position) {
        lemma_no_last_encoding(segment, end);
    }
}

/// The last entry of a segment is the one that fills it up behind others that stand whole in it,
/// whatever those hold: they are passed over by their sizes.
pub proof fn law_last_entry_fills_the_segment(before: Seq<u8>, size: Seq<u8>, encoding: Seq<u8>)
    requires
        !is_torn(before, 0),
        size.len() == 4,
        size[0] + 256 * size[1] + 65536 * size[2] + 16777216 * size[3] == encoding.len(),
    ensures
        last_entry(before + size + encoding) == intact_entry(encoding),
{
    let last = size + encoding;
    let whole = before + last;
    assert(before + size + encoding =~= whole);
    assert(last.skip(4) =~= encoding);
    law_entry_is_read_by_its_size(whole, before.len() as int);
    lemma_last_encoding(before, last, 0);
}

/// A segment that is empty or ends with an entry that was cut off has no last entry.
pub proof fn law_no_last_entry(segment: Seq<u8>)
    requires
        segment.len() == 0 || is_torn(segment, 0),
    ensures
        last_entry(segment) == Err::<EntryView, Fault>(Fault::UnexpectedEof),
{
    lemma_no_last_encoding(segment, 0);
}

/// The last entry of a segment that is filled with entries is the last of them.
pub proof fn law_last_entry_is_the_last(segment: Seq<u8>)
    requires
        entries_from(segment, 0) matches Some(entries) && entries.len() > 0,
    ensures
        last_entry(segment) == Ok::<EntryView, Fault>(entries_of(segment).last()),
{
    lemma_last_entry(segment, 0);
}

/// Entries that fill the front of a segment are searched one after the other.
proof fn lemma_search_passes_entries(before: Seq<u8>, tail: Seq<u8>, position: int, lsn: LSN)
    requires
        0 <= position <= before.len(),
        entries_from(before, position) matches Some(entries) && forall|i: int|
            0 <= i < entries.len() ==> (#[trigger] entries[i]).lsn != lsn,
    ensures
        position_after(before + tail, position, lsn) == position_after(
            before + tail,
            before.len() as int,
            lsn,
        ),
    decreases before.len() - position,
{
    if position < before.len() {
        law_appending_changes_no_entry(before, tail, position);
        let (first, end) = entry_at(before, position);
        let entries = entries_from(before, position)->0;
        let rest = entries_from(before, end)->0;
        assert(entries[0] == first->Ok_0);
        assert forall|i: int| 0 <= i < rest.len() implies (#[trigger] rest[i]).lsn != lsn by {
            assert(rest[i] == entries[i + 1]);
        }
        lemma_search_passes_entries(before, tail, end, lsn);
    }
}

/// A replay starts behind the entry that represents the checkpoint, which is the first one with its
/// LSN: in the segment that the checkpoint file names, and with all of that segment at hand.
pub proof fn law_replay_starts_behind_the_checkpoint(
    segment_id: u32,
    before: Seq<u8>,
    checkpoint: EntryView,
    behind: Seq<u8>,
)
    requires
        checkpoint.sound(),
        entries_from(before, 0) matches Some(entries) && forall|i: int|
            0 <= i < entries.len() ==> (#[trigger] entries[i]).lsn != checkpoint.lsn,
    ensures
        ({
            let segment = before + checkpoint.frame() + behind;
            &&& CursorView::behind((segment_id, checkpoint.lsn), segment) matches Ok(cursor)
            &&& cursor.segment_id == segment_id
            &&& cursor.reader.segment == segment
            &&& cursor.reader.position == before.len() + checkpoint.frame().len()
        }),
{
    let tail = checkpoint.frame() + behind;
    assert(before + checkpoint.frame() + behind =~= before + tail);
    lemma_search_passes_entries(before, tail, 0, checkpoint.lsn);
    law_reading_undoes_appending(before, checkpoint, behind);
}

/// If an entry cannot be read before the checkpoint has been found, there is no replay, and the
/// reason is the one for which that entry cannot be read.
pub proof fn law_search_stops_at_a_fault(
    segment_id: u32,
    lsn: LSN,
    before: Seq<u8>,
    tail: Seq<u8>,
    fault: Fault,
)
    requires
        entries_from(before, 0) matches Some(entries) && forall|i: int|
            0 <= i < entries.len() ==> (#[trigger] entries[i]).lsn != lsn,
        entry_at(before + tail, before.len() as int).0 == Err::<EntryView, Fault>(fault),
    ensures
        CursorView::behind((segment_id, lsn), before + tail) == Err::<CursorView, Fault>(fault),
{
    lemma_search_passes_entries(before, tail, 0, lsn);
}

/// A replay gives what is read at its position, an entry or a fault, and goes on where reading it
/// ended, in the same segment. Only at the end of the segment it asks for the next one.
pub proof fn law_replay_reads_on(cursor: CursorView)
    ensures
        ({
            let CursorView { segment_id, reader } = cursor;
            let (r, end) = entry_at(reader.segment, reader.position);
            let (progress, further) = cursor.next();
            if reader.position == reader.segment.len() {
                &&& progress == Ok::<ReplayedView, Fault>(ReplayedView::NextSegment(segment_id + 1))
                &&& further == cursor
            } else {
                &&& r matches Ok(entry) ==> progress == Ok::<ReplayedView, Fault>(
                    ReplayedView::Entry(entry),
                )
                &&& r matches Err(fault) ==> progress == Err::<ReplayedView, Fault>(fault)
                &&& further.segment_id == segment_id
                &&& further.reader.segment == reader.segment
                &&& further.reader.position == end
            }
        }),
{
}

/// The next segment is replayed from its beginning, and is the one that follows the current one. If
/// there is none, the replay stays where it is.
pub proof fn law_next_segment_is_replayed_from_its_beginning(cursor: CursorView, segment: Seq<u8>)
    ensures
        cursor.in_next_segment(Some(segment)).segment_id == cursor.segment_id + 1,
        cursor.in_next_segment(Some(segment)).reader.segment == segment,
        cursor.in_next_segment(Some(segment)).reader.position == 0,
        cursor.in_next_segment(None) == cursor,
{
}

/// What is appended to a segment while it is replayed is taken in, wherever the replay has come to.
/// It stays where it is, and goes on with all that was unread before and then with the entry that
/// was appended.
pub proof fn law_appended_entry_is_replayed(cursor: CursorView, appended: Seq<u8>, entry: EntryView)
    requires
        cursor.wf(),
        entries_from(cursor.reader.segment, cursor.reader.position) is Some,
        entry.sound(),
    ensures
        ({
            let grown = cursor.with_appended(appended);
            &&& grown.segment_id == cursor.segment_id
            &&& grown.reader.position == cursor.reader.position
            &&& grown.reader.segment == cursor.reader.segment + appended
        }),
        ({
            let grown = cursor.with_appended(entry.frame());
            entries_from(grown.reader.segment, grown.reader.position) == Some(
                entries_from(cursor.reader.segment, cursor.reader.position)->0.push(entry),
            )
        }),
{
    law_appending_adds_an_entry(cursor.reader.segment, cursor.reader.position, entry);
}

/// What is appended in two parts is the same as what is appended at once.
pub proof fn law_appended_parts_add_up(cursor: CursorView, first: Seq<u8>, then: Seq<u8>)
    ensures
        cursor.with_appended(first).with_appended(then) == cursor.with_appended(first + then),
{
    assert(cursor.reader.segment + first + then =~= cursor.reader.segment + (first + then));
}

/// A replay that has come to the end of a segment asks for the next one, and stays where it is for
/// as long as that cannot be opened.
pub proof fn law_replay_stays_at_the_end<E>(
    cursor: CursorView,
    opened: Result<Vec<u8>, OpenError<E>>,
)
    requires
        cursor.at_end(),
        opened is Err,
    ensures
        cursor.next() == (
            Ok::<ReplayedView, Fault>(ReplayedView::NextSegment(cursor.segment_id + 1)),
            cursor,
        ),
        cursor.in_next_segment(contents(opened)) == cursor,
{
}

/// A replay that has come to the end of a segment goes on with an entry that is appended to the
/// segment then.
pub proof fn law_replay_goes_on_with_what_is_appended(cursor: CursorView, entry: EntryView)
    requires
        cursor.wf(),
        cursor.at_end(),
        entry.sound(),
    ensures
        cursor.with_appended(entry.frame()).next().0 == Ok::<ReplayedView, Fault>(
            ReplayedView::Entry(entry),
        ),
        cursor.with_appended(entry.frame()).next().1.at_end(),
{
    let segment = cursor.reader.segment;
    law_reading_undoes_appending(segment, entry, Seq::empty());
    assert(segment + entry.frame() + Seq::<u8>::empty() =~= segment + entry.frame());
}

/// What is found in a segment is found at the same place after the segment has grown.
pub proof fn lemma_position_after_in_longer_segment(
    segment: Seq<u8>,
    tail: Seq<u8>,
    position: int,
    lsn: LSN,
)
    requires
        0 <= position <= segment.len(),
        position_after(segment, position, lsn) is Ok,
    ensures
        position_after(segment + tail, position, lsn) == position_after(segment, position, lsn),
    decreases segment.len() - position,
{
    law_appending_changes_no_entry(segment, tail, position);
    let (first, end) = entry_at(segment, position);
    if first->Ok_0.lsn != lsn {
        lemma_position_after_in_longer_segment(segment, tail, end, lsn);
    }
}

/// Looking for an entry by its LSN leads behind the first that has it.
pub proof fn lemma_position_after_finds(
    segment: Seq<u8>,
    position: int,
    entries: Seq<EntryView>,
    i: int,
    lsn: LSN,
)
    requires
        0 <= position <= segment.len(),
        entries_from(segment, position) == Some(entries),
        0 <= i < entries.len(),
        entries[i].lsn == lsn,
        forall|j: int| 0 <= j < i ==> (#[trigger] entries[j]).lsn != lsn,
    ensures
        position_after(segment, position, lsn) matches Ok(end) && position <= end <= segment.len()
            && entries_from(segment, end) == Some(entries.skip(i + 1)),
    decreases segment.len() - position,
{
    let (first, end) = entry_at(segment, position);
    let rest = entries_from(segment, end)->0;
    assert(entries[0] == first->Ok_0);
    assert(entries.skip(1) =~= rest);
    if i > 0 {
        assert forall|j: int| 0 <= j < i - 1 implies (#[trigger] rest[j]).lsn != lsn by {
            assert(rest[j] == entries[j + 1]);
        }
        lemma_position_after_finds(segment, end, rest, i - 1, lsn);
        assert(rest.skip(i) =~= entries.skip(i + 1));
    }
}

/// What is found by its LSN is among the entries.
pub proof fn lemma_found_entry(segment: Seq<u8>, position: int, lsn: LSN)
    requires
        0 <= position <= segment.len(),
        entries_from(segment, position) is Some,
        position_after(segment, position, lsn) is Ok,
    ensures
        exists|i: int|
            0 <= i < entries_from(segment, position)->0.len() && (
            #[trigger] entries_from(segment, position)->0[i]).lsn == lsn,
    decreases segment.len() - position,
{
    let (first, end) = entry_at(segment, position);
    let entries = entries_from(segment, position)->0;
    if first->Ok_0.lsn == lsn {
        assert(entries[0].lsn == lsn);
    } else {
        lemma_found_entry(segment, end, lsn);
        let rest = entries_from(segment, end)->0;
        let i = choose|i: int| 0 <= i < rest.len() && (#[trigger] rest[i]).lsn == lsn;
        assert(entries[i + 1] == rest[i]);
    }
}

/// Behind an entry that is found by its LSN, the segment is filled with the entries that follow.
pub proof fn lemma_found_position(segment: Seq<u8>, position: int, lsn: LSN)
    requires
        0 <= position <= segment.len(),
        entries_from(segment, position) is Some,
        position_after(segment, position, lsn) is Ok,
    ensures
        position_after(segment, position, lsn) matches Ok(end) && position <= end <= segment.len()
            && entries_from(segment, end) is Some,
    decreases segment.len() - position,
{
    let (first, end) = entry_at(segment, position);
    if first->Ok_0.lsn != lsn {
        lemma_found_position(segment, end, lsn);
    }
}

/// The last entry of a segment is the last of its entries.
pub proof fn lemma_last_entry(segment: Seq<u8>, position: int)
    requires
        0 <= position <= segment.len(),
        entries_from(segment, position) is Some,
        entries_from(segment, position)->0.len() > 0,
    ensures
        last_encoding(segment, position) matches Some(encoding) && crate::entry::intact_entry(
            encoding,
        ) == Ok::<EntryView, Fault>(entries_from(segment, position)->0.last()),
    decreases segment.len() - position,
{
    let (first, end) = entry_at(segment, position);
    let rest = entries_from(segment, end)->0;
    if end == segment.len() {
        assert(rest =~= Seq::empty());
    } else {
        assert(rest.len() > 0) by {
            let (second, _) = entry_at(segment, end);
            assert(rest[0] == second->Ok_0);
        }
        lemma_last_entry(segment, end);
        assert((seq![first->Ok_0] + rest).last() == rest.last());
    }
}

/// The entries of a row of segments are those of all but the last, then those of the last.
pub proof fn lemma_log_entries_last(segments: Map<int, Seq<u8>>, first: int, last: int)
    requires
        first <= last,
    ensures
        log_entries(segments, first, last) == log_entries(segments, first, last - 1) + entries_of(
            segments[last],
        ),
    decreases last - first,
{
    if first == last {
        reveal_with_fuel(log_entries, 2);
        assert(log_entries(segments, first, last) =~= log_entries(segments, first, last - 1)
            + entries_of(segments[last]));
    } else {
        lemma_log_entries_last(segments, first + 1, last);
        assert(log_entries(segments, first, last) =~= log_entries(segments, first, last - 1)
            + entries_of(segments[last]));
    }
}

/// The entries of a row of segments are those before a segment, those of the segment, and those
/// after it.
pub proof fn lemma_log_entries_split(
    segments: Map<int, Seq<u8>>,
    first: int,
    middle: int,
    last: int,
)
    requires
        first <= middle <= last,
    ensures
        log_entries(segments, first, last) == log_entries(segments, first, middle - 1)
            + entries_of(segments[middle]) + log_entries(segments, middle + 1, last),
    decreases middle - first,
{
    if first == middle {
        assert(log_entries(segments, first, last) =~= log_entries(segments, first, middle - 1)
            + entries_of(segments[middle]) + log_entries(segments, middle + 1, last));
    } else {
        lemma_log_entries_split(segments, first + 1, middle, last);
        assert(log_entries(segments, first, last) =~= log_entries(segments, first, middle - 1)
            + entries_of(segments[middle]) + log_entries(segments, middle + 1, last));
    }
}

/// Only the segments in the row matter.
pub proof fn lemma_log_entries_same(
    a: Map<int, Seq<u8>>,
    b: Map<int, Seq<u8>>,
    first: int,
    last: int,
)
    requires
        forall|id: int| first <= id <= last ==> #[trigger] a[id] == b[id],
    ensures
        log_entries(a, first, last) == log_entries(b, first, last),
    decreases last - first + 1,
{
    if first <= last {
        lemma_log_entries_same(a, b, first + 1, last);
        assert(a[first] == b[first]);
    }
}

/// A replay from some place on gives the entries that follow it, each once, in order.
pub proof fn lemma_replay(segments: Map<int, Seq<u8>>, cursor: CursorView, last: int)
    requires
        cursor.reader.wf(),
        entries_from(cursor.reader.segment, cursor.reader.position) is Some,
        cursor.segment_id <= last,
        are_filled(segments, cursor.segment_id + 1, last),
    ensures
        replay(segments, cursor, last) == all_read(
            entries_from(cursor.reader.segment, cursor.reader.position)->0 + log_entries(
                segments,
                cursor.segment_id + 1,
                last,
            ),
        ),
    decreases last - cursor.segment_id, cursor.reader.segment.len() - cursor.reader.position,
{
    let segment = cursor.reader.segment;
    let position = cursor.reader.position;
    let later = log_entries(segments, cursor.segment_id + 1, last);
    let here = entries_from(segment, position)->0;
    if cursor.at_end() {
        let id = cursor.segment_id + 1;
        assert(here + later =~= later);
        if id <= last {
            assert(segments.dom().contains(id));
            lemma_replay(segments, cursor.in_next_segment(Some(segments[id])), last);
        } else {
            assert(all_read(here + later) =~= Seq::empty());
        }
    } else {
        let (first, end) = entry_at(segment, position);
        let further = CursorView { reader: ReaderView { segment, position: end }, ..cursor };
        assert(cursor.next().1 =~= further);
        lemma_replay(segments, further, last);
        let rest = entries_from(segment, end)->0;
        assert(here + later =~= seq![first->Ok_0] + (rest + later));
        assert(all_read(here + later) =~= seq![Ok(first->Ok_0)] + all_read(rest + later));
    }
}

/// In a segment that is filled with entries, all stand whole.
pub proof fn lemma_all_stand_whole(segment: Seq<u8>, position: int)
    requires
        0 <= position <= segment.len(),
        entries_from(segment, position) is Some,
    ensures
        whole_entries(segment, position) == entries_from(segment, position)->0.len(),
        !is_torn(segment, position),
    decreases segment.len() - position,
{
    if position < segment.len() {
        lemma_all_stand_whole(segment, entry_at(segment, position).1);
    }
}

/// What is appended to a segment leaves the entries whole that stand in it.
pub proof fn lemma_appending_keeps_entries_whole(segment: Seq<u8>, tail: Seq<u8>, position: int)
    requires
        0 <= position,
    ensures
        whole_entries(segment, position) <= whole_entries(segment + tail, position),
    decreases segment.len() - position,
{
    if let Some(end) = entry_end(segment, position) {
        law_appending_changes_no_entry(segment, tail, position);
        lemma_appending_keeps_entries_whole(segment, tail, end);
    }
}

/// What is appended to a segment adds no entry in front of one that is found there.
pub proof fn lemma_appending_adds_behind(
    segment: Seq<u8>,
    tail: Seq<u8>,
    position: int,
    lsn: LSN,
)
    requires
        0 <= position <= segment.len(),
        position_after(segment, position, lsn) is Ok,
    ensures
        ({
            let found = position_after(segment, position, lsn)->Ok_0;
            &&& position <= found <= segment.len()
            &&& whole_entries(segment + tail, position) - whole_entries(segment + tail, found)
                == whole_entries(segment, position) - whole_entries(segment, found)
            &&& is_torn(segment, position) == is_torn(segment, found)
        }),
    decreases segment.len() - position,
{
    law_appending_changes_no_entry(segment, tail, position);
    let (first, end) = entry_at(segment, position);
    if first->Ok_0.lsn != lsn {
        lemma_appending_adds_behind(segment, tail, end, lsn);
    }
}

/// A replay of the last segment, of which only a part is left, gives the entries that stand whole
/// in that part.
pub proof fn lemma_replay_of_a_part(
    segments: Map<int, Seq<u8>>,
    cursor: CursorView,
    last: int,
    lost: Seq<u8>,
)
    requires
        cursor.reader.wf(),
        cursor.segment_id == last,
        entries_from(cursor.reader.segment + lost, cursor.reader.position) is Some,
    ensures
        ({
            let left = cursor.reader.segment;
            let position = cursor.reader.position;
            let entries = entries_from(left + lost, position)->0;
            let n = whole_entries(left, position) as int;
            let end: Seq<Result<EntryView, Fault>> = if is_torn(left, position) {
                seq![Err(Fault::UnexpectedEof)]
            } else {
                Seq::empty()
            };
            &&& n <= entries.len()
            &&& replay(segments, cursor, last) == all_read(entries.take(n)) + end
        }),
    decreases cursor.reader.segment.len() - cursor.reader.position,
{
    let left = cursor.reader.segment;
    let position = cursor.reader.position;
    let entries = entries_from(left + lost, position)->0;
    let n = whole_entries(left, position) as int;
    let none = Seq::<Result<EntryView, Fault>>::empty();
    if cursor.at_end() {
        assert(all_read(entries.take(0)) + none =~= none);
    } else {
        let (first, end) = entry_at(left, position);
        let further = CursorView { reader: ReaderView { segment: left, position: end }, ..cursor };
        assert(cursor.next().1 =~= further);
        if entry_end(left, position) is Some {
            law_appending_changes_no_entry(left, lost, position);
            lemma_replay_of_a_part(segments, further, last, lost);
            let rest = entries_from(left + lost, end)->0;
            assert(entries.take(n) =~= seq![first->Ok_0] + rest.take(n - 1));
            assert(all_read(entries.take(n)) =~= seq![Ok(first->Ok_0)] + all_read(rest.take(n - 1)));
            assert(replay(segments, cursor, last) =~= seq![Ok(first->Ok_0)] + replay(
                segments,
                further,
                last,
            ));
        } else {
            assert(replay(segments, further, last) =~= none);
            let eof = seq![Err::<EntryView, Fault>(Fault::UnexpectedEof)];
            assert(eof + none =~= all_read(entries.take(0)) + eof);
        }
    }
}

/// A replay from some place on, of a log of whose last segment only a part is left, gives the
/// entries that follow the place and have been left whole.
pub proof fn lemma_replay_up_to_a_part(
    segments: Map<int, Seq<u8>>,
    cursor: CursorView,
    last: int,
    lost: Seq<u8>,
)
    requires
        cursor.reader.wf(),
        cursor.segment_id < last,
        entries_from(cursor.reader.segment, cursor.reader.position) is Some,
        are_filled(segments, cursor.segment_id + 1, last - 1),
        segments.dom().contains(last),
        entries_from(segments[last] + lost, 0) is Some,
    ensures
        whole_entries(segments[last], 0) <= entries_of(segments[last] + lost).len(),
        replay(segments, cursor, last) == all_read(
            entries_from(cursor.reader.segment, cursor.reader.position)->0 + log_entries(
                segments,
                cursor.segment_id + 1,
                last - 1,
            ) + entries_of(segments[last] + lost).take(whole_entries(segments[last], 0) as int),
        ) + torn_end(segments[last]),
    decreases last - cursor.segment_id, cursor.reader.segment.len() - cursor.reader.position,
{
    let segment = cursor.reader.segment;
    let position = cursor.reader.position;
    let here = entries_from(segment, position)->0;
    let between = log_entries(segments, cursor.segment_id + 1, last - 1);
    let part = entries_of(segments[last] + lost).take(whole_entries(segments[last], 0) as int);
    let end = torn_end(segments[last]);
    if cursor.at_end() {
        let id = cursor.segment_id + 1;
        assert(segments.dom().contains(id));
        let next = cursor.in_next_segment(Some(segments[id]));
        if id == last {
            lemma_replay_of_a_part(segments, next, last, lost);
            assert(here + between + part =~= part);
        } else {
            lemma_replay_up_to_a_part(segments, next, last, lost);
            assert(here + between + part =~= entries_of(segments[id]) + log_entries(
                segments,
                id + 1,
                last - 1,
            ) + part);
        }
    } else {
        let (first, next) = entry_at(segment, position);
        let further = CursorView { reader: ReaderView { segment, position: next }, ..cursor };
        assert(cursor.next().1 =~= further);
        lemma_replay_up_to_a_part(segments, further, last, lost);
        let rest = entries_from(segment, next)->0;
        assert(here + between + part =~= seq![first->Ok_0] + (rest + between + part));
        assert(all_read(here + between + part) + end =~= seq![Ok(first->Ok_0)] + (all_read(
            rest + between + part,
        ) + end));
    }
}

/// The last entry of a segment starts where the entry was appended.
pub proof fn lemma_last_start(segment: Seq<u8>, position: int, entry: EntryView)
    requires
        entry.sound(),
        0 <= position <= segment.len(),
        entries_from(segment, position) is Some,
    ensures
        last_start(segment + entry.frame(), position) == segment.len(),
    decreases segment.len() - position,
{
    let longer = segment + entry.frame();
    law_reading_undoes_appending(segment, entry, Seq::empty());
    assert(longer + Seq::<u8>::empty() =~= longer);
    if position < segment.len() {
        law_appending_changes_no_entry(segment, entry.frame(), position);
        let (_, end) = entry_at(segment, position);
        lemma_last_start(segment, end, entry);
        if end < segment.len() {
            law_appending_changes_no_entry(segment, entry.frame(), end);
        }
    }
}

} // verus!
