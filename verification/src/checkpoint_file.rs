//! The file that tells where the latest checkpoint is.

use vstd::prelude::*;

use crate::error::{Error, Fault};
use crate::files::{join, joined, SegmentID, CHECKPOINT_FILE_NAME, LSN};
use crate::text::{ascii, ascii_bytes, ascii_text, decimal, parse_u32, parsed_u32, push_decimal,
    split_at_first, split_once, trimmed, COLON};

verus! {

/// The segment that the latest checkpoint entry is in, and the LSN of that entry.
pub type LatestCheckpointDetails = (SegmentID, LSN);

/// What the checkpoint file holds: `{segment ID}:{entry LSN}`.
pub open spec fn checkpoint_text(details: LatestCheckpointDetails) -> Seq<u8> {
    decimal(details.0 as nat).push(COLON) + decimal(details.1 as nat)
}

/// What a text, free of white space at its ends, tells of the latest checkpoint.
pub open spec fn checkpoint_details(text: Seq<u8>) -> Option<LatestCheckpointDetails> {
    match split_once(text, COLON) {
        Some((segment_id, entry_lsn)) => match (parsed_u32(segment_id), parsed_u32(entry_lsn)) {
            (Some(segment_id), Some(entry_lsn)) => Some((segment_id, entry_lsn)),
            _ => None,
        },
        None => None,
    }
}

/// What the contents of the checkpoint file tell of the latest checkpoint.
pub open spec fn read_details(contents: Seq<char>) -> Option<LatestCheckpointDetails> {
    checkpoint_details(vstd::utf8::encode_utf8(trimmed(contents)))
}

/// Represents the checkpoint file, which holds information about the latest checkpoint entry.
#[derive(Debug)]
pub struct CheckpointFile {
    path: Vec<u8>,
}

impl View for CheckpointFile {
    type V = Seq<u8>;

    closed spec fn view(&self) -> Seq<u8> {
        self.path@
    }
}

impl CheckpointFile {
    /// The checkpoint file of the log in the given directory.
    pub fn new(wal_dir: &[u8]) -> (file: CheckpointFile)
        ensures
            file@ == joined(wal_dir@, ascii(CHECKPOINT_FILE_NAME@)),
            file@ == joined(wal_dir@, ascii(".checkpoint"@)),
    {
        proof {
            reveal_strlit(".checkpoint");
        }
        CheckpointFile { path: join(wal_dir, ascii_bytes(CHECKPOINT_FILE_NAME)) }
    }

    /// The path of the file.
    pub fn path(&self) -> (path: &[u8])
        ensures
            path@ == self@,
    {
        self.path.as_slice()
    }

    /// What the file has to hold, and nothing else, once the given checkpoint is the latest.
    pub fn update(&self, latest_checkpoint_details: LatestCheckpointDetails) -> (contents: Vec<u8>)
        ensures
            contents@ == checkpoint_text(latest_checkpoint_details),
    {
        let (segment_id, entry_lsn) = latest_checkpoint_details;
        let mut contents: Vec<u8> = Vec::new();
        push_decimal(&mut contents, segment_id);
        contents.push(COLON);
        push_decimal(&mut contents, entry_lsn);
        assert(contents@ =~= checkpoint_text(latest_checkpoint_details));
        contents
    }

    /// Reads the latest checkpoint details from the contents of the file.
    pub fn read(&self, contents: &str) -> (r: Result<LatestCheckpointDetails, Error>)
        ensures
            match r {
                Ok(details) => read_details(contents@) == Some(details),
                Err(error) => read_details(contents@) is None && error@
                    == Fault::InvalidCheckpointFile && error is InvalidCheckpointFile,
            },
    {
        let text = contents.trim();
        let (segment_id, entry_lsn) = match split_at_first(text.as_bytes(), COLON) {
            Some(parts) => parts,
            None => return Err(Error::InvalidCheckpointFile),
        };
        let segment_id: SegmentID = match parse_u32(segment_id) {
            Some(segment_id) => segment_id,
            None => return Err(Error::InvalidCheckpointFile),
        };
        let entry_lsn: LSN = match parse_u32(entry_lsn) {
            Some(entry_lsn) => entry_lsn,
            None => return Err(Error::InvalidCheckpointFile),
        };
        Ok((segment_id, entry_lsn))
    }
}

/// Reading the file after an update gives the details that it was updated with.
pub proof fn law_reading_undoes_updating(details: LatestCheckpointDetails)
    ensures
        read_details(ascii_text(checkpoint_text(details))) == Some(details),
{
    let written = checkpoint_text(details);
    let text = ascii_text(written);
    let first = decimal(details.0 as nat);
    let second = decimal(details.1 as nat);
    crate::text::lemma_decimal(details.0 as nat);
    crate::text::lemma_decimal(details.1 as nat);
    crate::text::law_parsing_undoes_printing(details.0);
    crate::text::law_parsing_undoes_printing(details.1);
    assert forall|i: int| 0 <= i < written.len() implies written[i] <= COLON && written[i]
        >= crate::text::ZERO by {
        if i < first.len() {
            assert(written[i] == first[i]);
        } else if i > first.len() {
            assert(written[i] == second[i - first.len() - 1]);
        }
    }
    assert(text[0] == written[0] as char);
    assert(text.last() == written.last() as char);
    assert(trimmed(text) == text);
    vstd::utf8::is_ascii_chars_encode_utf8(text);
    assert(vstd::utf8::encode_utf8(text) =~= written);
    crate::text::lemma_split_undoes_joining(first, COLON, second);
}

/// The checkpoint file of a log that has had no checkpoint is empty, and tells of none.
pub proof fn law_empty_file_tells_of_no_checkpoint(contents: Seq<char>)
    requires
        trimmed(contents).len() == 0,
    ensures
        read_details(contents) is None,
{
    assert(trimmed(contents) =~= Seq::empty());
    vstd::utf8::is_ascii_chars_encode_utf8(trimmed(contents));
}

/// The checkpoint file is written as the segment ID, a colon and the LSN.
pub proof fn law_checkpoint_text(segment_id: SegmentID, entry_lsn: LSN)
    ensures
        checkpoint_text((segment_id, entry_lsn)) == decimal(segment_id as nat) + seq![58u8]
            + decimal(entry_lsn as nat),
{
    assert(decimal(segment_id as nat).push(58) =~= decimal(segment_id as nat) + seq![58u8]);
}

/// The checkpoint file tells of a checkpoint exactly if numbers stand before and behind its first
/// colon, white space at the ends aside, and then of the one with these numbers.
pub proof fn law_details_that_are_read(contents: Seq<char>, before: Seq<u8>, after: Seq<u8>)
    requires
        forall|j: int| 0 <= j < before.len() ==> before[j] != 58,
    ensures
        vstd::utf8::encode_utf8(trimmed(contents)) == before + seq![58u8] + after ==> {
            let details = read_details(contents);
            &&& details is Some <==> parsed_u32(before) is Some && parsed_u32(after) is Some
            &&& details is Some ==> parsed_u32(before) == Some((details->0).0) && parsed_u32(after)
                == Some((details->0).1)
        },
        vstd::utf8::encode_utf8(trimmed(contents)) == before ==> read_details(contents) is None,
{
    crate::text::law_splitting(before, 58, after);
}

} // verus!
