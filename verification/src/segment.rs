//! Segments: files of length-prefixed entries.

use vstd::prelude::*;
use vstd::slice::slice_subrange;

use crate::entry::{decode_entry, intact_entry, outcome, EntryView, WalEntry};
use crate::error::{Error, Fault};

verus! {

/// How many bytes the size of an entry's encoding takes in front of the encoding.
pub const ENTRY_ENCODING_SIZE_SIZE: usize = 4;

/// A number in four bytes, lowest first.
pub open spec fn le32_bytes(number: u32) -> Seq<u8> {
    seq![
        (number % 256) as u8,
        (number / 256 % 256) as u8,
        (number / 65536 % 256) as u8,
        (number / 16777216) as u8,
    ]
}

/// The number that four bytes hold, lowest first.
pub open spec fn le32(bytes: Seq<u8>) -> int {
    bytes[0] + 256 * bytes[1] + 65536 * bytes[2] + 16777216 * bytes[3]
}

impl EntryView {
    /// The entry as it stands in a segment: the size of its encoding, then the encoding. Of a size
    /// that takes more than 32 bits only the low 32 are kept.
    pub open spec fn frame(self) -> Seq<u8> {
        le32_bytes((self.encoding().len() % 0x1_0000_0000) as u32) + self.encoding()
    }
}

/// Where the entry that starts at `position` ends, if the segment holds all of it.
pub open spec fn entry_end(segment: Seq<u8>, position: int) -> Option<int> {
    if position + 4 > segment.len() {
        None
    } else {
        let end = position + 4 + le32(segment.subrange(position, position + 4));
        if end <= segment.len() {
            Some(end)
        } else {
            None
        }
    }
}

/// What reading an entry at `position` gives, and where it leaves the reader: behind the entry, or
/// at the end of the segment if the segment ends before the entry does.
pub open spec fn entry_at(segment: Seq<u8>, position: int) -> (Result<EntryView, Fault>, int) {
    match entry_end(segment, position) {
        Some(end) => (intact_entry(segment.subrange(position + 4, end)), end),
        None => (Err(Fault::UnexpectedEof), segment.len() as int),
    }
}

/// The encoding of the last of the entries that fill the segment from `position` on.
pub open spec fn last_encoding(segment: Seq<u8>, position: int) -> Option<Seq<u8>>
    decreases segment.len() - position,
{
    match entry_end(segment, position) {
        None => None,
        Some(end) => if end == segment.len() {
            Some(segment.subrange(position + 4, end))
        } else {
            last_encoding(segment, end)
        },
    }
}

/// Where the last of the entries that stand whole in the segment from `position` on starts, or
/// `position` if there is none.
pub open spec fn last_start(segment: Seq<u8>, position: int) -> int
    decreases segment.len() - position,
{
    match entry_end(segment, position) {
        Some(end) => if entry_end(segment, end) is Some {
            last_start(segment, end)
        } else {
            position
        },
        None => position,
    }
}

/// How many entries stand whole in the segment from `position` on.
pub open spec fn whole_entries(segment: Seq<u8>, position: int) -> nat
    decreases segment.len() - position,
{
    match entry_end(segment, position) {
        Some(end) => 1 + whole_entries(segment, end),
        None => 0,
    }
}

/// Whether something is left in the segment behind the entries that stand whole in it from
/// `position` on: an entry that was cut off.
pub open spec fn is_torn(segment: Seq<u8>, position: int) -> bool
    decreases segment.len() - position,
{
    match entry_end(segment, position) {
        Some(end) => is_torn(segment, end),
        None => position != segment.len(),
    }
}

/// The last entry of a segment.
pub open spec fn last_entry(segment: Seq<u8>) -> Result<EntryView, Fault> {
    match last_encoding(segment, 0) {
        Some(encoding) => intact_entry(encoding),
        None => Err(Fault::UnexpectedEof),
    }
}

impl WalEntry {
    /// The bytes to append to a segment for the entry.
    pub fn frame(&self) -> (frame: Vec<u8>)
        requires
            4 + self@.encoding().len() <= isize::MAX,
        ensures
            frame@ == self@.frame(),
    {
        let size: usize = self.encoded_len();
        let prefix: u32 = (size as u64 % 0x1_0000_0000) as u32;
        let mut buffer: Vec<u8> = Vec::with_capacity(ENTRY_ENCODING_SIZE_SIZE + size);
        buffer.push((prefix % 256) as u8);
        buffer.push((prefix / 256 % 256) as u8);
        buffer.push((prefix / 65536 % 256) as u8);
        buffer.push((prefix / 16777216) as u8);
        assert(buffer@ =~= le32_bytes(prefix));
        self.encode(&mut buffer);
        buffer
    }
}

/// Reads a segment from front to back.
#[derive(Debug)]
pub struct SegmentReader {
    segment: Vec<u8>,
    position: usize,
}

/// The bytes of a segment, and where in them the next read starts.
#[verifier::ext_equal]
pub struct ReaderView {
    pub segment: Seq<u8>,
    pub position: int,
}

impl View for SegmentReader {
    type V = ReaderView;

    closed spec fn view(&self) -> ReaderView {
        ReaderView { segment: self.segment@, position: self.position as int }
    }
}

impl ReaderView {
    /// The position lies in the segment or at its end.
    pub open spec fn wf(self) -> bool {
        0 <= self.position <= self.segment.len()
    }

    /// A reader at the beginning of a segment.
    pub open spec fn start(segment: Seq<u8>) -> ReaderView {
        ReaderView { segment, position: 0 }
    }
}

impl SegmentReader {
    /// The position lies in the segment or at its end.
    #[verifier::type_invariant]
    pub(crate) open spec fn in_bounds(self) -> bool {
        self@.wf()
    }

    /// Constructs a reader at the beginning of the segment.
    pub fn new(segment: Vec<u8>) -> (reader: SegmentReader)
        ensures
            reader@ == ReaderView::start(segment@),
            reader@.segment == segment@,
            reader@.position == 0,
            reader@.wf(),
    {
        SegmentReader { segment, position: 0 }
    }

    /// Tells the reader of bytes that have been appended to the segment since.
    pub fn extend(&mut self, appended: &[u8])
        ensures
            final(self)@ == (ReaderView {
                segment: old(self)@.segment + appended@,
                position: old(self)@.position,
            }),
            final(self)@.wf(),
    {
        proof {
            use_type_invariant(&*self);
        }
        let position: usize = self.position;
        let mut segment: Vec<u8> = Vec::new();
        self.position = 0;
        std::mem::swap(&mut segment, &mut self.segment);
        segment.extend_from_slice(appended);
        self.segment = segment;
        self.position = position;
    }

    /// Whether all of the segment has been read.
    pub fn at_end(&self) -> (r: bool)
        ensures
            r == (self@.position == self@.segment.len()),
    {
        self.position == self.segment.len()
    }
}

/// Expects that the reader is at the beginning of an entry: the size of its encoding, followed by
/// the encoding itself. Reads and returns the size, and leaves the reader at the beginning of the
/// encoding.
pub fn read_entry_encoding_size(segment_reader: &mut SegmentReader) -> (r: Result<u32, Error>)
    ensures
        final(segment_reader)@.segment == old(segment_reader)@.segment,
        final(segment_reader)@.wf(),
        ({
            let segment = old(segment_reader)@.segment;
            let position = old(segment_reader)@.position;
            if position + 4 <= segment.len() {
                &&& r matches Ok(size)
                &&& size == le32(segment.subrange(position, position + 4))
                &&& size == segment[position] + 256 * segment[position + 1] + 65536
                    * segment[position + 2] + 16777216 * segment[position + 3]
                &&& final(segment_reader)@.position == position + 4
            } else {
                &&& r matches Err(error)
                &&& error is UnexpectedEof
                &&& error@ == Fault::UnexpectedEof
                &&& final(segment_reader)@.position == segment.len()
            }
        }),
{
    proof {
        use_type_invariant(&*segment_reader);
    }
    let position: usize = segment_reader.position;
    if segment_reader.segment.len() - position < ENTRY_ENCODING_SIZE_SIZE {
        segment_reader.position = segment_reader.segment.len();
        return Err(Error::UnexpectedEof);
    }
    let b0: u32 = segment_reader.segment[position] as u32;
    let b1: u32 = segment_reader.segment[position + 1] as u32;
    let b2: u32 = segment_reader.segment[position + 2] as u32;
    let b3: u32 = segment_reader.segment[position + 3] as u32;
    segment_reader.position = position + ENTRY_ENCODING_SIZE_SIZE;
    Ok(b0 + 256 * b1 + 65536 * b2 + 16777216 * b3)
}

/// Expects that the reader is at the beginning of an entry: the size of its encoding, followed by
/// the encoding itself. The entry is read and returned, and the reader is left at its end.
pub fn read_entry(segment_reader: &mut SegmentReader) -> (r: Result<WalEntry, Error>)
    ensures
        final(segment_reader)@.segment == old(segment_reader)@.segment,
        final(segment_reader)@.wf(),
        (outcome(r), final(segment_reader)@.position) == entry_at(
            old(segment_reader)@.segment,
            old(segment_reader)@.position,
        ),
{
    let entry_encoding_size: u32 = match read_entry_encoding_size(segment_reader) {
        Ok(size) => size,
        Err(error) => return Err(error),
    };
    let start: usize = segment_reader.position;
    let available: u64 = (segment_reader.segment.len() - start) as u64;
    if available < entry_encoding_size as u64 {
        segment_reader.position = segment_reader.segment.len();
        return Err(Error::UnexpectedEof);
    }
    let end: usize = start + entry_encoding_size as usize;
    segment_reader.position = end;
    decode_entry(slice_subrange(segment_reader.segment.as_slice(), start, end))
}

/// Returns the last entry in the given segment.
pub fn get_last_entry_in_segment(segment: Vec<u8>) -> (r: Result<WalEntry, Error>)
    ensures
        outcome(r) == last_entry(segment@),
{
    let mut segment_reader = SegmentReader::new(segment);
    let mut start: usize = 0;
    let mut end: usize = 0;
    let mut is_last: bool = false;
    while !is_last
        invariant
            segment_reader@.wf(),
            segment_reader@.segment == segment@,
            if is_last {
                start <= end <= segment@.len() && last_encoding(segment@, 0) == Some(
                    segment@.subrange(start as int, end as int),
                )
            } else {
                last_encoding(segment@, segment_reader@.position) == last_encoding(segment@, 0)
            },
        decreases segment@.len() - segment_reader@.position,
    {
        let entry_encoding_size: u32 = match read_entry_encoding_size(&mut segment_reader) {
            Ok(size) => size,
            Err(error) => return Err(error),
        };
        start = segment_reader.position;
        let available: u64 = (segment_reader.segment.len() - start) as u64;
        if available < entry_encoding_size as u64 {
            return Err(Error::UnexpectedEof);
        }
        end = start + entry_encoding_size as usize;
        // Check if this is the last entry. Otherwise, go on to the beginning of the next.
        is_last = end == segment_reader.segment.len();
        segment_reader.position = end;
    }
    decode_entry(slice_subrange(segment_reader.segment.as_slice(), start, end))
}

} // verus!
