//! A log entry and its encoding.

use vstd::prelude::*;

use crate::error::{Error, Fault};
use crate::wire;
use crate::wire::Context;

verus! {

/// Field number of the log sequence number.
pub const LSN_TAG: u32 = 1;

/// Field number of the checkpoint mark.
pub const IS_CHECKPOINT_TAG: u32 = 2;

/// Field number of the checksum.
pub const CRC_TAG: u32 = 3;

/// Field number of the data.
pub const DATA_TAG: u32 = 4;

/// Name of an entry's message.
pub const MESSAGE_NAME: &'static str = "WalEntry";

/// Name of the field that holds the log sequence number.
pub const LSN_NAME: &'static str = "lsn";

/// Name of the field that holds the checkpoint mark.
pub const IS_CHECKPOINT_NAME: &'static str = "is_checkpoint";

/// Name of the field that holds the checksum.
pub const CRC_NAME: &'static str = "crc";

/// Name of the field that holds the data.
pub const DATA_NAME: &'static str = "data";

/// What the length of an encoding exceeds that of the data by, at most.
pub const MAX_ENCODING_OVERHEAD: usize = 25;

/// A record of the log.
#[derive(Debug)]
pub struct WalEntry {
    /// Log sequence number.
    pub lsn: u32,
    /// Whether the entry is a checkpoint.
    pub is_checkpoint: bool,
    /// CRC32 checksum of the data.
    pub crc: u32,
    /// What was logged.
    pub data: Vec<u8>,
}

/// What a `WalEntry` holds.
#[verifier::ext_equal]
pub struct EntryView {
    pub lsn: u32,
    pub is_checkpoint: bool,
    pub crc: u32,
    pub data: Seq<u8>,
}

impl View for WalEntry {
    type V = EntryView;

    open spec fn view(&self) -> EntryView {
        EntryView {
            lsn: self.lsn,
            is_checkpoint: self.is_checkpoint,
            crc: self.crc,
            data: self.data@,
        }
    }
}

impl EntryView {
    /// The entry whose fields all have their default values.
    pub open spec fn empty() -> EntryView {
        EntryView { lsn: 0, is_checkpoint: false, crc: 0, data: Seq::empty() }
    }

    /// The protobuf message that holds the entry. A field with its default value is left out.
    pub open spec fn encoding(self) -> Seq<u8> {
        let lsn = if self.lsn == 0 { seq![] } else { wire::uint32_bytes(LSN_TAG, self.lsn) };
        let mark = if self.is_checkpoint {
            wire::bool_bytes(IS_CHECKPOINT_TAG, true)
        } else {
            seq![]
        };
        let crc = if self.crc == 0 { seq![] } else { wire::uint32_bytes(CRC_TAG, self.crc) };
        let data = if self.data.len() == 0 {
            seq![]
        } else {
            wire::bytes_bytes(DATA_TAG, self.data)
        };
        lsn + mark + crc + data
    }
}

/// Where a decoder is when it reads a field of an entry.
pub open spec fn in_field(field: Seq<char>) -> Context {
    seq![(MESSAGE_NAME@, field)]
}

/// `entry` after the first field of `bytes` has been read into it, and the bytes that follow the
/// field, or where the decoder is when it cannot go on. A field number that is none of an entry's
/// is passed over.
pub open spec fn merged_field(entry: EntryView, bytes: Seq<u8>) -> Result<
    (EntryView, Seq<u8>),
    Context,
> {
    match wire::key(bytes) {
        None => Err(wire::no_context()),
        Some((tag, wire_type, value)) => if tag == LSN_TAG {
            match wire::uint32_value(wire_type, value) {
                Some((lsn, rest)) => Ok((EntryView { lsn, ..entry }, rest)),
                None => Err(in_field(LSN_NAME@)),
            }
        } else if tag == IS_CHECKPOINT_TAG {
            match wire::bool_value(wire_type, value) {
                Some((is_checkpoint, rest)) => Ok((EntryView { is_checkpoint, ..entry }, rest)),
                None => Err(in_field(IS_CHECKPOINT_NAME@)),
            }
        } else if tag == CRC_TAG {
            match wire::uint32_value(wire_type, value) {
                Some((crc, rest)) => Ok((EntryView { crc, ..entry }, rest)),
                None => Err(in_field(CRC_NAME@)),
            }
        } else if tag == DATA_TAG {
            match wire::bytes_value(wire_type, value) {
                Some((data, rest)) => Ok((EntryView { data, ..entry }, rest)),
                None => Err(in_field(DATA_NAME@)),
            }
        } else {
            match wire::skipped(wire_type, tag, value) {
                Some(rest) => Ok((entry, rest)),
                None => Err(wire::no_context()),
            }
        },
    }
}

/// `entry` after all fields of `bytes` have been read into it, in order, or where the decoder is
/// when it cannot go on. Of a field that occurs more than once the last value counts.
pub open spec fn merged(entry: EntryView, bytes: Seq<u8>) -> Result<EntryView, Context>
    decreases bytes.len(),
{
    if bytes.len() == 0 {
        Ok(entry)
    } else {
        proof {
            lemma_field_consumes(entry, bytes);
        }
        match merged_field(entry, bytes) {
            Ok((next, rest)) => merged(next, rest),
            Err(context) => Err(context),
        }
    }
}

/// The entry that a protobuf message holds, or where its decoder is when it gives up.
pub open spec fn decoded(bytes: Seq<u8>) -> Result<EntryView, Context> {
    merged(EntryView::empty(), bytes)
}

/// A remainder of the division by the CRC32 polynomial of IEEE 802.3, `bits` steps further on. The
/// bits of both stand in reverse, the highest power lowest.
pub open spec fn crc32_shifted(crc: u32, bits: nat) -> u32
    decreases bits,
{
    if bits == 0 {
        crc
    } else {
        let shifted = crc >> 1;
        crc32_shifted(if crc & 1 == 1 { shifted ^ 0xedb8_8320 } else { shifted }, (bits - 1) as nat)
    }
}

/// The remainder that `data` leaves, where the first 32 bits are inverted.
pub open spec fn crc32_remainder(data: Seq<u8>) -> u32
    decreases data.len(),
{
    if data.len() == 0 {
        0xffff_ffff
    } else {
        crc32_shifted(crc32_remainder(data.drop_last()) ^ (data.last() as u32), 8)
    }
}

/// The CRC32 checksum of `data`: the remainder, inverted.
pub open spec fn crc32(data: Seq<u8>) -> u32 {
    !crc32_remainder(data)
}

/// `crc32fast::hash` computes the CRC32 checksum of a byte slice.
pub assume_specification[ crc32fast::hash ](buf: &[u8]) -> (crc: u32)
    ensures
        crc == crc32(buf@),
;

/// The entry that a protobuf message holds, if its data has the checksum stored with it.
pub open spec fn intact_entry(bytes: Seq<u8>) -> Result<EntryView, Fault> {
    match decoded(bytes) {
        Ok(entry) => if entry.crc == crc32(entry.data) {
            Ok(entry)
        } else {
            Err(Fault::CorruptedWALEntry { lsn: entry.lsn })
        },
        Err(context) => Err(Fault::Decode { context }),
    }
}

/// What an attempt to read an entry came to.
pub open spec fn outcome(r: Result<WalEntry, Error>) -> Result<EntryView, Fault> {
    match r {
        Ok(entry) => Ok(entry@),
        Err(error) => Err(error@),
    }
}

/// The error, which now tells that the decoder was in the given field of an entry.
fn located(error: prost::DecodeError, field: &'static str) -> (r: prost::DecodeError)
    ensures
        wire::context(r) == wire::context(error).push((MESSAGE_NAME@, field@)),
{
    let mut error = error;
    error.push(MESSAGE_NAME, field);
    error
}

impl WalEntry {
    /// The length of the entry's encoding.
    pub fn encoded_len(&self) -> (len: usize)
        requires
            self@.encoding().len() <= usize::MAX,
        ensures
            len == self@.encoding().len(),
    {
        let lsn: usize = if self.lsn == 0 { 0 } else { wire::encoded_len_uint32(LSN_TAG, self.lsn) };
        let mark: usize = if self.is_checkpoint {
            wire::encoded_len_bool(IS_CHECKPOINT_TAG, true)
        } else {
            0
        };
        let crc: usize = if self.crc == 0 { 0 } else { wire::encoded_len_uint32(CRC_TAG, self.crc) };
        let data: usize = if self.data.len() == 0 {
            0
        } else {
            wire::encoded_len_bytes(DATA_TAG, &self.data)
        };
        lsn + mark + crc + data
    }

    /// Appends the entry's encoding to `buf`.
    pub fn encode(&self, buf: &mut Vec<u8>)
        requires
            old(buf)@.len() + self@.encoding().len() <= isize::MAX,
        ensures
            final(buf)@ == old(buf)@ + self@.encoding(),
    {
        if self.lsn != 0 {
            wire::encode_uint32(LSN_TAG, self.lsn, buf);
        }
        if self.is_checkpoint {
            wire::encode_bool(IS_CHECKPOINT_TAG, true, buf);
        }
        if self.crc != 0 {
            wire::encode_uint32(CRC_TAG, self.crc, buf);
        }
        if self.data.len() != 0 {
            wire::encode_bytes(DATA_TAG, &self.data, buf);
        }
    }

    /// Reads the entry that a protobuf message holds.
    pub fn decode(bytes: &[u8]) -> (r: Result<WalEntry, prost::DecodeError>)
        ensures
            match r {
                Ok(entry) => decoded(bytes@) == Ok::<EntryView, Context>(entry@),
                Err(error) => decoded(bytes@) == Err::<EntryView, Context>(
                    wire::context(error),
                ),
            },
    {
        let mut entry = WalEntry { lsn: 0, is_checkpoint: false, crc: 0, data: Vec::new() };
        let mut rest: &[u8] = bytes;
        assert(entry@ =~= EntryView::empty());
        while rest.len() > 0
            invariant
                merged(entry@, rest@) == decoded(bytes@),
            decreases rest@.len(),
        {
            proof {
                lemma_field_consumes(entry@, rest@);
            }
            let (tag, wire_type, value) = match wire::decode_key(rest) {
                Ok(key) => key,
                Err(error) => return Err(error),
            };
            if tag == LSN_TAG {
                match wire::merge_uint32(wire_type, value) {
                    Ok((lsn, after)) => {
                        entry.lsn = lsn;
                        rest = after;
                    },
                    Err(error) => return Err(located(error, LSN_NAME)),
                }
            } else if tag == IS_CHECKPOINT_TAG {
                match wire::merge_bool(wire_type, value) {
                    Ok((is_checkpoint, after)) => {
                        entry.is_checkpoint = is_checkpoint;
                        rest = after;
                    },
                    Err(error) => return Err(located(error, IS_CHECKPOINT_NAME)),
                }
            } else if tag == CRC_TAG {
                match wire::merge_uint32(wire_type, value) {
                    Ok((crc, after)) => {
                        entry.crc = crc;
                        rest = after;
                    },
                    Err(error) => return Err(located(error, CRC_NAME)),
                }
            } else if tag == DATA_TAG {
                match wire::merge_bytes(wire_type, value) {
                    Ok((data, after)) => {
                        entry.data = data;
                        rest = after;
                    },
                    Err(error) => return Err(located(error, DATA_NAME)),
                }
            } else {
                match wire::skip_field(wire_type, tag, value) {
                    Ok(after) => {
                        rest = after;
                    },
                    Err(error) => return Err(error),
                }
            }
        }
        Ok(entry)
    }

    /// The entry itself, if `current_crc`, the checksum that its data has now, is the one stored
    /// with it.
    pub fn verified(self, current_crc: u32) -> (r: Result<WalEntry, Error>)
        ensures
            match r {
                Ok(entry) => current_crc == self.crc && entry == self,
                Err(error) => current_crc != self.crc && error == (Error::CorruptedWALEntry {
                    lsn: self.lsn,
                }),
            },
    {
        if current_crc != self.crc {
            return Err(Error::CorruptedWALEntry { lsn: self.lsn });
        }
        Ok(self)
    }
}

/// Decodes the given entry encoding and verifies the integrity of its data.
pub fn decode_entry(encoding: &[u8]) -> (r: Result<WalEntry, Error>)
    ensures
        outcome(r) == intact_entry(encoding@),
        match decoded(encoding@) {
            Ok(stored) => if stored.crc == crc32(stored.data) {
                r matches Ok(entry) && entry.lsn == stored.lsn && entry.is_checkpoint
                    == stored.is_checkpoint && entry.crc == stored.crc && entry.data@
                    == stored.data
            } else {
                r == Err::<WalEntry, Error>(Error::CorruptedWALEntry { lsn: stored.lsn })
            },
            Err(context) => r matches Err(Error::Decode(error)) && wire::context(error) == context,
        },
{
    let entry = match WalEntry::decode(encoding) {
        Ok(entry) => entry,
        Err(error) => return Err(Error::Decode(error)),
    };
    let current_crc = crc32fast::hash(entry.data.as_slice());
    entry.verified(current_crc)
}

/// The encoding of an entry is not much longer than its data.
pub proof fn lemma_encoding_overhead(entry: EntryView)
    requires
        entry.data.len() <= u64::MAX,
    ensures
        entry.encoding().len() <= entry.data.len() + MAX_ENCODING_OVERHEAD,
{
    assert(wire::key_bytes(LSN_TAG, wire::VARINT).len() == 1);
    assert(wire::key_bytes(IS_CHECKPOINT_TAG, wire::VARINT).len() == 1);
    assert(wire::key_bytes(CRC_TAG, wire::VARINT).len() == 1);
    assert(wire::key_bytes(DATA_TAG, wire::LENGTH_DELIMITED).len() == 1);
    wire::lemma_varint_len_of_u32(entry.lsn);
    wire::lemma_varint_len_of_u32(entry.crc);
    wire::lemma_varint_len(entry.data.len());
}

/// The encoding of an entry is at least as long as its data.
pub proof fn lemma_encoding_covers_data(entry: EntryView)
    ensures
        entry.data.len() <= entry.encoding().len(),
{
}

/// A field takes at least one byte.
pub proof fn lemma_field_consumes(entry: EntryView, bytes: Seq<u8>)
    ensures
        merged_field(entry, bytes) matches Ok((_, rest)) ==> rest.len() < bytes.len(),
{
    wire::lemma_key_consumes(bytes);
    if let Some((tag, wire_type, value)) = wire::key(bytes) {
        wire::lemma_values_consume(wire_type, tag, value);
    }
}

/// A written LSN is read into the entry.
proof fn lemma_merges_lsn(entry: EntryView, lsn: u32, tail: Seq<u8>)
    ensures
        merged(entry, wire::uint32_bytes(LSN_TAG, lsn) + tail) == merged(
            EntryView { lsn, ..entry },
            tail,
        ),
{
    wire::lemma_uint32_reads_back(LSN_TAG, lsn, tail);
    let bytes = wire::uint32_bytes(LSN_TAG, lsn) + tail;
    assert(merged_field(entry, bytes)->Ok_0 == (EntryView { lsn, ..entry }, tail));
}

/// A written checkpoint mark is read into the entry.
proof fn lemma_merges_mark(entry: EntryView, is_checkpoint: bool, tail: Seq<u8>)
    ensures
        merged(entry, wire::bool_bytes(IS_CHECKPOINT_TAG, is_checkpoint) + tail) == merged(
            EntryView { is_checkpoint, ..entry },
            tail,
        ),
{
    wire::lemma_bool_reads_back(IS_CHECKPOINT_TAG, is_checkpoint, tail);
    let bytes = wire::bool_bytes(IS_CHECKPOINT_TAG, is_checkpoint) + tail;
    assert(merged_field(entry, bytes)->Ok_0 == (EntryView { is_checkpoint, ..entry }, tail));
}

/// A written checksum is read into the entry.
proof fn lemma_merges_crc(entry: EntryView, crc: u32, tail: Seq<u8>)
    ensures
        merged(entry, wire::uint32_bytes(CRC_TAG, crc) + tail) == merged(
            EntryView { crc, ..entry },
            tail,
        ),
{
    wire::lemma_uint32_reads_back(CRC_TAG, crc, tail);
    let bytes = wire::uint32_bytes(CRC_TAG, crc) + tail;
    assert(merged_field(entry, bytes)->Ok_0 == (EntryView { crc, ..entry }, tail));
}

/// Written data is read into the entry.
proof fn lemma_merges_data(entry: EntryView, data: Seq<u8>, tail: Seq<u8>)
    requires
        data.len() <= u64::MAX,
    ensures
        merged(entry, wire::bytes_bytes(DATA_TAG, data) + tail) == merged(
            EntryView { data, ..entry },
            tail,
        ),
{
    wire::lemma_bytes_reads_back(DATA_TAG, data, tail);
    let bytes = wire::bytes_bytes(DATA_TAG, data) + tail;
    assert(merged_field(entry, bytes)->Ok_0 == (EntryView { data, ..entry }, tail));
}

/// Decoding an entry's encoding gives the entry back.
pub proof fn law_decoding_undoes_encoding(entry: EntryView)
    requires
        entry.data.len() <= u64::MAX,
    ensures
        decoded(entry.encoding()) == Ok::<EntryView, Context>(entry),
{
    let none = Seq::<u8>::empty();
    let lsn = if entry.lsn == 0 { none } else { wire::uint32_bytes(LSN_TAG, entry.lsn) };
    let mark = if entry.is_checkpoint { wire::bool_bytes(IS_CHECKPOINT_TAG, true) } else { none };
    let crc = if entry.crc == 0 { none } else { wire::uint32_bytes(CRC_TAG, entry.crc) };
    let data = if entry.data.len() == 0 { none } else { wire::bytes_bytes(DATA_TAG, entry.data) };
    let after_crc = data;
    let after_mark = crc + after_crc;
    let after_lsn = mark + after_mark;
    assert(entry.encoding() =~= lsn + after_lsn);

    let with_nothing = EntryView::empty();
    let with_lsn = EntryView { lsn: entry.lsn, ..with_nothing };
    let with_mark = EntryView { is_checkpoint: entry.is_checkpoint, ..with_lsn };
    let with_crc = EntryView { crc: entry.crc, ..with_mark };
    assert(merged(with_nothing, lsn + after_lsn) == merged(with_lsn, after_lsn)) by {
        lemma_merges_lsn(with_nothing, entry.lsn, after_lsn);
        assert(none + after_lsn =~= after_lsn);
    }
    assert(merged(with_lsn, after_lsn) == merged(with_mark, after_mark)) by {
        lemma_merges_mark(with_lsn, true, after_mark);
        assert(none + after_mark =~= after_mark);
    }
    assert(merged(with_mark, after_mark) == merged(with_crc, after_crc)) by {
        lemma_merges_crc(with_mark, entry.crc, after_crc);
        assert(none + after_crc =~= after_crc);
    }
    assert(merged(with_crc, after_crc) == merged(entry, none)) by {
        lemma_merges_data(with_crc, entry.data, none);
        assert(data + none =~= data);
        assert(entry.data.len() == 0 ==> entry.data =~= none);
    }
}

/// A field is read the same whatever follows it.
proof fn lemma_field_extends(entry: EntryView, bytes: Seq<u8>, tail: Seq<u8>)
    ensures
        merged_field(entry, bytes) matches Ok((next, rest)) ==> merged_field(entry, bytes + tail)
            == Ok::<(EntryView, Seq<u8>), Context>((next, rest + tail)),
{
    wire::lemma_key_extends(bytes, tail);
    if let Some((tag, wire_type, value)) = wire::key(bytes) {
        wire::lemma_values_extend(wire_type, tag, value, tail);
    }
}

/// Reading fields and then further fields.
proof fn lemma_merged_in_two_parts(entry: EntryView, first: Seq<u8>, then: Seq<u8>)
    ensures
        merged(entry, first) matches Ok(between) ==> merged(entry, first + then) == merged(
            between,
            then,
        ),
    decreases first.len(),
{
    if first.len() == 0 {
        assert(first + then =~= then);
    } else {
        lemma_field_extends(entry, first, then);
        lemma_field_consumes(entry, first);
        if let Ok((next, rest)) = merged_field(entry, first) {
            lemma_merged_in_two_parts(next, rest, then);
        }
    }
}

/// A message is read field by field, and a field changes nothing but what it is the field of. The
/// field that follows what has been read replaces the LSN, the checkpoint mark, the checksum or the
/// data, whatever that was before, or nothing at all if its number is another. If its value cannot
/// be read, the decoder gives up there. And a message without fields is the entry of defaults.
pub proof fn law_decoding_goes_field_by_field(bytes: Seq<u8>, field: Seq<u8>)
    requires
        decoded(bytes) is Ok,
        field.len() > 0,
    ensures
        decoded(Seq::empty()) == Ok::<EntryView, Context>(
            EntryView { lsn: 0, is_checkpoint: false, crc: 0, data: Seq::empty() },
        ),
        ({
            let before = decoded(bytes)->Ok_0;
            let after = decoded(bytes + field);
            match wire::key(field) {
                None => after == Err::<EntryView, Context>(Seq::empty()),
                Some((1, wire_type, value)) => match wire::uint32_value(wire_type, value) {
                    Some((lsn, rest)) => rest.len() == 0 ==> after == Ok::<EntryView, Context>(
                        EntryView {
                            lsn,
                            is_checkpoint: before.is_checkpoint,
                            crc: before.crc,
                            data: before.data,
                        },
                    ),
                    None => after == Err::<EntryView, Context>(seq![("WalEntry"@, "lsn"@)]),
                },
                Some((2, wire_type, value)) => match wire::bool_value(wire_type, value) {
                    Some((is_checkpoint, rest)) => rest.len() == 0 ==> after == Ok::<
                        EntryView,
                        Context,
                    >(
                        EntryView {
                            lsn: before.lsn,
                            is_checkpoint,
                            crc: before.crc,
                            data: before.data,
                        },
                    ),
                    None => after == Err::<EntryView, Context>(
                        seq![("WalEntry"@, "is_checkpoint"@)],
                    ),
                },
                Some((3, wire_type, value)) => match wire::uint32_value(wire_type, value) {
                    Some((crc, rest)) => rest.len() == 0 ==> after == Ok::<EntryView, Context>(
                        EntryView {
                            lsn: before.lsn,
                            is_checkpoint: before.is_checkpoint,
                            crc,
                            data: before.data,
                        },
                    ),
                    None => after == Err::<EntryView, Context>(seq![("WalEntry"@, "crc"@)]),
                },
                Some((4, wire_type, value)) => match wire::bytes_value(wire_type, value) {
                    Some((data, rest)) => rest.len() == 0 ==> after == Ok::<EntryView, Context>(
                        EntryView {
                            lsn: before.lsn,
                            is_checkpoint: before.is_checkpoint,
                            crc: before.crc,
                            data,
                        },
                    ),
                    None => after == Err::<EntryView, Context>(seq![("WalEntry"@, "data"@)]),
                },
                Some((tag, wire_type, value)) => match wire::skipped(wire_type, tag, value) {
                    Some(rest) => rest.len() == 0 ==> after == Ok::<EntryView, Context>(before),
                    None => after == Err::<EntryView, Context>(Seq::empty()),
                },
            }
        }),
{
    let before = decoded(bytes)->Ok_0;
    lemma_merged_in_two_parts(EntryView::empty(), bytes, field);
    assert(decoded(bytes + field) == merged(before, field));
    if let Ok((next, rest)) = merged_field(before, field) {
        if rest.len() == 0 {
            assert(merged(next, rest) == Ok::<EntryView, Context>(next));
        }
    }
}

/// An encoding is made of the fields that differ from their defaults, in the order of their numbers:
/// nothing for an entry of defaults, and each field behind the encoding of the entry without it and
/// those that follow.
pub proof fn law_encoding_goes_field_by_field(entry: EntryView)
    ensures
        ({
            let EntryView { lsn, is_checkpoint, crc, data } = entry;
            let none = Seq::<u8>::empty();
            let with_lsn = EntryView { lsn, is_checkpoint: false, crc: 0, data: none };
            let with_mark = EntryView { lsn, is_checkpoint, crc: 0, data: none };
            let with_crc = EntryView { lsn, is_checkpoint, crc, data: none };
            &&& with_lsn.encoding() == (if lsn == 0 {
                none
            } else {
                wire::uint32_bytes(1, lsn)
            })
            &&& with_mark.encoding() == (if is_checkpoint {
                with_lsn.encoding() + wire::bool_bytes(2, true)
            } else {
                with_lsn.encoding()
            })
            &&& with_crc.encoding() == (if crc == 0 {
                with_mark.encoding()
            } else {
                with_mark.encoding() + wire::uint32_bytes(3, crc)
            })
            &&& entry.encoding() == (if data.len() == 0 {
                with_crc.encoding()
            } else {
                with_crc.encoding() + wire::bytes_bytes(4, data)
            })
        }),
{
    let EntryView { lsn, is_checkpoint, crc, data } = entry;
    let none = Seq::<u8>::empty();
    let with_lsn = EntryView { lsn, is_checkpoint: false, crc: 0, data: none };
    let with_mark = EntryView { lsn, is_checkpoint, crc: 0, data: none };
    let with_crc = EntryView { lsn, is_checkpoint, crc, data: none };
    assert(with_lsn.encoding() =~= if lsn == 0 { none } else { wire::uint32_bytes(1, lsn) });
    assert(with_mark.encoding() =~= if is_checkpoint {
        with_lsn.encoding() + wire::bool_bytes(2, true)
    } else {
        with_lsn.encoding()
    });
    assert(with_crc.encoding() =~= if crc == 0 {
        with_mark.encoding()
    } else {
        with_mark.encoding() + wire::uint32_bytes(3, crc)
    });
    assert(entry.encoding() =~= if data.len() == 0 {
        with_crc.encoding()
    } else {
        with_crc.encoding() + wire::bytes_bytes(4, data)
    });
}

/// Reading verifies the integrity of the data. It succeeds exactly if the bytes hold an entry that
/// was stored with the checksum of its data, and then gives that very entry. An entry that was stored
/// with another checksum is reported as corrupted, by its LSN.
pub proof fn law_integrity_is_verified(bytes: Seq<u8>)
    ensures
        decoded(bytes) matches Ok(entry) && entry.crc != crc32(entry.data) ==> intact_entry(bytes)
            == Err::<EntryView, Fault>(
            Fault::CorruptedWALEntry { lsn: decoded(bytes)->Ok_0.lsn },
        ),
        decoded(bytes) matches Ok(entry) && entry.crc == crc32(entry.data) ==> intact_entry(bytes)
            == Ok::<EntryView, Fault>(decoded(bytes)->Ok_0),
        decoded(bytes) is Err ==> intact_entry(bytes) == Err::<EntryView, Fault>(
            Fault::Decode { context: decoded(bytes)->Err_0 },
        ),
        intact_entry(bytes) matches Ok(entry) ==> decoded(bytes) == Ok::<EntryView, Context>(entry)
            && entry.crc == crc32(entry.data),
{
}

/// Data that was changed after its checksum was taken is not read as it is: either the change has
/// left the checksum as it was, or the entry is reported as corrupted.
pub proof fn law_changed_data_is_noticed(entry: EntryView, changed: Seq<u8>)
    requires
        entry.crc == crc32(entry.data),
        changed.len() <= u64::MAX,
        crc32(changed) != crc32(entry.data),
    ensures
        intact_entry(EntryView { data: changed, ..entry }.encoding()) == Err::<EntryView, Fault>(
            Fault::CorruptedWALEntry { lsn: entry.lsn },
        ),
{
    law_decoding_undoes_encoding(EntryView { data: changed, ..entry });
}

/// The view of an entry shows each of its fields, and that of an error what it tells.
pub proof fn law_views_show_what_there_is(entry: WalEntry, error: Error)
    ensures
        entry@.lsn == entry.lsn,
        entry@.is_checkpoint == entry.is_checkpoint,
        entry@.crc == entry.crc,
        entry@.data == entry.data@,
        error is UnexpectedEof <==> error@ == Fault::UnexpectedEof,
        error is InvalidCheckpointFile <==> error@ == Fault::InvalidCheckpointFile,
        error is CorruptedWALEntry <==> error@ is CorruptedWALEntry,
        error is CorruptedWALEntry ==> error->lsn == error@->lsn,
        error matches Error::Decode(cause) ==> error@ == (Fault::Decode {
            context: wire::context(cause),
        }),
        outcome(Ok(entry)) == Ok::<EntryView, Fault>(entry@),
        outcome(Err(error)) == Err::<EntryView, Fault>(error@),
{
}

} // verus!
