//! A segmented write-ahead log.
//!
//! A write-ahead log is an append-only structure on disk that is used to recover from a crash:
//! what has not made it to the primary storage is replayed from the log. It consists of entries,
//! each with a unique, monotonically increasing log sequence number (LSN). The entries are kept in
//! segments, files that are appended to one after the other. A checkpoint is an entry from which
//! on the log has to be replayed; a file of its own tells where the latest is.
//!
//! This crate decides what is written and understands what is read. It leaves the files themselves
//! to its callers.

pub mod checkpoint_file;
pub mod entry;
pub mod error;
pub mod files;
pub mod history;
pub mod recovery;
pub mod replayer;
pub mod segment;
pub mod storage;
pub mod text;
pub mod wal;
pub mod wire;

pub use checkpoint_file::{CheckpointFile, LatestCheckpointDetails};
pub use entry::{decode_entry, WalEntry};
pub use error::Error;
pub use files::{parse_segment_name, segment_path, SegmentID, CHECKPOINT_FILE_NAME, LSN,
    SEGMENT_NAME_PREFIX};
pub use replayer::{OpenError, Replayed, Replayer};
pub use segment::{get_last_entry_in_segment, read_entry, read_entry_encoding_size, SegmentReader};
pub use wal::{find_segments, Action, Segments, WALOptions, WAL};
