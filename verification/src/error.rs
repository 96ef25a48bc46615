//! What can go wrong.

use vstd::prelude::*;

use crate::wire::{context, Context};

verus! {

/// Why an operation on the log failed.
#[derive(Debug)]
pub enum Error {
    /// The segment ends before the entry does.
    UnexpectedEof,
    /// The bytes are no protobuf message that holds an entry.
    Decode(prost::DecodeError),
    /// The data of the entry does not have the checksum that was stored with it.
    CorruptedWALEntry { lsn: u32 },
    /// The checkpoint file does not hold a segment ID and an LSN.
    InvalidCheckpointFile,
}

/// An `Error`. Of what a decoder tells, it holds where the decoder was, not the words in which it
/// explains itself.
#[verifier::ext_equal]
pub enum Fault {
    UnexpectedEof,
    Decode { context: Context },
    CorruptedWALEntry { lsn: u32 },
    InvalidCheckpointFile,
}

impl View for Error {
    type V = Fault;

    open spec fn view(&self) -> Fault {
        match *self {
            Error::UnexpectedEof => Fault::UnexpectedEof,
            Error::Decode(error) => Fault::Decode { context: context(error) },
            Error::CorruptedWALEntry { lsn } => Fault::CorruptedWALEntry { lsn },
            Error::InvalidCheckpointFile => Fault::InvalidCheckpointFile,
        }
    }
}

} // verus!
