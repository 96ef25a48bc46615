# wally

A segmented write-ahead log, proved correct with Verus.

The library decides what is written to the files of a log and understands what is read from them. It
does not touch a disk itself: `WAL::write_entry` gives the steps that writing an entry takes,
`WAL::complete` is told of each step done, and `Replayer` is handed the contents of the segments.

- `src/` holds the library and its proofs. `wire`, `entry` and `segment` say how an entry is laid
  out in bytes; `text`, `files` and `checkpoint_file` how files are named and what the checkpoint
  file holds; `wal` and `replayer` how a log is written and replayed. `history`, `storage` and
  `recovery` state what holds of a log as a whole, above all that a replay gives exactly what has
  been written since the latest checkpoint.
- `app/` holds the log on disk: file access, locking and buffering around the library.
- `tests/` runs the library, with `prost` and `crc32fast` underneath.

Field encodings come from `prost`, checksums from `crc32fast`, and white space is trimmed by the
standard library's `str::trim`. What the proofs take for granted of the three is stated next to the
functions that call them, or in `text` for the last.
