use prost::bytes::{Buf, BufMut};
use prost::encoding::{self, DecodeContext, WireType};
use prost::{DecodeError, Message};
use wally::{decode_entry, Error, WalEntry};

fn entry(lsn: u32, is_checkpoint: bool, crc: u32, data: &[u8]) -> WalEntry {
    WalEntry { lsn, is_checkpoint, crc, data: data.to_vec() }
}

fn encoded(entry: &WalEntry) -> Vec<u8> {
    let mut bytes = Vec::new();
    entry.encode(&mut bytes);
    bytes
}

fn same(a: &WalEntry, b: &WalEntry) -> bool {
    a.lsn == b.lsn && a.is_checkpoint == b.is_checkpoint && a.crc == b.crc && a.data == b.data
}

/// The entry as a protobuf message of its own.
#[derive(Debug, Default, PartialEq)]
struct EntryMessage {
    lsn: u32,
    is_checkpoint: bool,
    crc: u32,
    data: Vec<u8>,
}

impl Message for EntryMessage {
    fn encode_raw(&self, buf: &mut impl BufMut) {
        if self.lsn != 0 {
            encoding::uint32::encode(1, &self.lsn, buf);
        }
        if self.is_checkpoint {
            encoding::bool::encode(2, &self.is_checkpoint, buf);
        }
        if self.crc != 0 {
            encoding::uint32::encode(3, &self.crc, buf);
        }
        if !self.data.is_empty() {
            encoding::bytes::encode(4, &self.data, buf);
        }
    }

    fn merge_field(
        &mut self,
        tag: u32,
        wire_type: WireType,
        buf: &mut impl Buf,
        ctx: DecodeContext,
    ) -> Result<(), DecodeError> {
        let (result, field) = match tag {
            1 => (encoding::uint32::merge(wire_type, &mut self.lsn, buf, ctx), "lsn"),
            2 => (
                encoding::bool::merge(wire_type, &mut self.is_checkpoint, buf, ctx),
                "is_checkpoint",
            ),
            3 => (encoding::uint32::merge(wire_type, &mut self.crc, buf, ctx), "crc"),
            4 => (encoding::bytes::merge(wire_type, &mut self.data, buf, ctx), "data"),
            _ => return encoding::skip_field(wire_type, tag, buf, ctx),
        };
        result.map_err(|mut error| {
            error.push("WalEntry", field);
            error
        })
    }

    fn encoded_len(&self) -> usize {
        let mut len = 0;
        if self.lsn != 0 {
            len += encoding::uint32::encoded_len(1, &self.lsn);
        }
        if self.is_checkpoint {
            len += encoding::bool::encoded_len(2, &self.is_checkpoint);
        }
        if self.crc != 0 {
            len += encoding::uint32::encoded_len(3, &self.crc);
        }
        if !self.data.is_empty() {
            len += encoding::bytes::encoded_len(4, &self.data);
        }
        len
    }

    fn clear(&mut self) {
        *self = EntryMessage::default();
    }
}

fn message(entry: &WalEntry) -> EntryMessage {
    EntryMessage {
        lsn: entry.lsn,
        is_checkpoint: entry.is_checkpoint,
        crc: entry.crc,
        data: entry.data.clone(),
    }
}

fn samples() -> Vec<WalEntry> {
    vec![
        entry(0, false, 0, b""),
        entry(1, true, 5, &[0xaa]),
        entry(127, false, 128, b"x"),
        entry(300, true, u32::MAX, b"some data"),
        entry(u32::MAX, false, 1, &vec![7; 200]),
        entry(16384, true, 0, &vec![9; 70000]),
    ]
}

/// Groups of field number 5 inside of each other, with the given bytes in the innermost.
fn groups(count: usize, inside: &[u8]) -> Vec<u8> {
    [vec![43; count], inside.to_vec(), vec![44; count]].concat()
}

#[test]
fn encoding_has_one_field_after_the_other() {
    let bytes = encoded(&entry(1, true, 5, &[0xaa]));
    assert_eq!(bytes, vec![8, 1, 16, 1, 24, 5, 34, 1, 0xaa]);
}

#[test]
fn default_values_are_left_out() {
    assert_eq!(encoded(&entry(0, false, 0, b"")), Vec::<u8>::new());
    assert_eq!(encoded(&entry(0, false, 0, b"a")), vec![34, 1, 97]);
    assert_eq!(encoded(&entry(3, false, 0, b"")), vec![8, 3]);
}

#[test]
fn numbers_are_written_in_base_128() {
    assert_eq!(encoded(&entry(300, false, 0, b"")), vec![8, 0xac, 2]);
    assert_eq!(encoded(&entry(u32::MAX, false, 0, b"")), vec![8, 0xff, 0xff, 0xff, 0xff, 0x0f]);
}

#[test]
fn encoding_is_appended() {
    let mut bytes = vec![1, 2, 3];
    entry(3, false, 0, b"").encode(&mut bytes);
    assert_eq!(bytes, vec![1, 2, 3, 8, 3]);
}

#[test]
fn encoded_len_is_the_length_of_the_encoding() {
    for sample in samples() {
        assert_eq!(sample.encoded_len(), encoded(&sample).len());
    }
    assert_eq!(entry(1, true, 5, &[0xaa]).encoded_len(), 9);
}

#[test]
fn decoding_gives_the_entry_back() {
    for sample in samples() {
        let decoded = WalEntry::decode(&encoded(&sample)).unwrap();
        assert!(same(&decoded, &sample));
    }
}

#[test]
fn encoding_is_that_of_the_message() {
    for sample in samples() {
        let message = message(&sample);
        assert_eq!(message.encode_to_vec(), encoded(&sample));
        assert_eq!(message.encoded_len(), sample.encoded_len());
    }
}

#[test]
fn decoding_is_that_of_the_message() {
    let inputs: Vec<Vec<u8>> = vec![
        vec![],
        vec![8, 1, 16, 1, 24, 5, 34, 1, 0xaa],
        // The fields may come in any order, and the last value counts.
        vec![34, 1, 1, 24, 5, 8, 1, 8, 2, 34, 1, 9],
        // More bits than the field has.
        vec![8, 0x81, 0x80, 0x80, 0x80, 0x10],
        vec![16, 7],
        vec![16, 0],
        // More bytes than the number needs.
        vec![8, 0x85, 0x80, 0x00],
        // The largest number, and one more.
        vec![8, 0xff, 0xff, 0xff, 0xff, 0xff, 0xff, 0xff, 0xff, 0xff, 0x01],
        vec![8, 0xff, 0xff, 0xff, 0xff, 0xff, 0xff, 0xff, 0xff, 0xff, 0x02],
        vec![8, 0x80, 0x80, 0x80, 0x80, 0x80, 0x80, 0x80, 0x80, 0x80, 0x80, 0x01],
        // Fields of other numbers.
        vec![40, 1, 8, 3],
        vec![41, 1, 2, 3, 4, 5, 6, 7, 8, 8, 3],
        vec![42, 2, 1, 1, 8, 3],
        vec![43, 8, 9, 44, 8, 3],
        vec![43, 51, 52, 44, 8, 3],
        vec![45, 1, 2, 3, 4, 8, 3],
        // Values that are cut short, groups that do not match.
        vec![41, 1, 2],
        vec![45, 1, 2],
        vec![42, 9, 1],
        vec![43, 8, 9],
        vec![43, 8, 9, 52],
        vec![44],
        groups(99, &[8, 9]),
        groups(100, &[]),
        groups(100, &[8, 9]),
        groups(101, &[]),
        [groups(3, &[45, 1, 2, 3, 4, 41, 1, 2, 3, 4, 5, 6, 7, 8, 42, 1, 7]), vec![8, 3]].concat(),
        groups(3, &[44]),
        groups(3, &[52]),
        groups(3, &[42, 9]),
        vec![34, 2, 1],
        vec![8],
        vec![8, 0x80],
        // Wrong wire types, no wire type, no field number.
        vec![10, 1, 1],
        vec![18, 1, 1],
        vec![32, 1],
        vec![14, 1],
        vec![15, 1],
        vec![0, 1],
        vec![0x88, 0x80, 0x80, 0x80, 0x10, 1],
    ];
    for input in inputs {
        match (WalEntry::decode(&input), EntryMessage::decode(input.as_slice())) {
            (Ok(entry), Ok(expected)) => assert_eq!(message(&entry), expected),
            (Err(error), Err(expected)) => assert_eq!(error, expected),
            _ => panic!("disagreement on {:?}", input),
        }
    }
}

#[test]
fn other_fields_are_passed_over() {
    let decoded = WalEntry::decode(&[40, 1, 43, 8, 9, 44, 42, 1, 7, 8, 3]).unwrap();
    assert!(same(&decoded, &entry(3, false, 0, b"")));
}

#[test]
fn groups_nest_only_so_deep() {
    assert!(WalEntry::decode(&groups(100, &[])).is_ok());
    assert!(WalEntry::decode(&groups(99, &[8, 9])).is_ok());
    assert!(WalEntry::decode(&groups(100, &[8, 9])).is_err());
    assert!(WalEntry::decode(&groups(101, &[])).is_err());
}

#[test]
fn error_tells_the_field() {
    let told = |bytes: &[u8]| WalEntry::decode(bytes).unwrap_err().to_string();
    let wrong_type = "invalid wire type: LengthDelimited (expected Varint)";
    let prefix = "failed to decode Protobuf message: ";
    assert_eq!(told(&[10, 1, 1]), format!("{}WalEntry.lsn: {}", prefix, wrong_type));
    assert_eq!(told(&[18, 1, 1]), format!("{}WalEntry.is_checkpoint: {}", prefix, wrong_type));
    assert_eq!(told(&[26, 1, 1]), format!("{}WalEntry.crc: {}", prefix, wrong_type));
    assert_eq!(told(&[34, 2, 1]), format!("{}WalEntry.data: buffer underflow", prefix));
    assert_eq!(told(&[45, 1, 2]), format!("{}buffer underflow", prefix));
    assert_eq!(told(&[0, 1]), format!("{}invalid tag value: 0", prefix));
    match decode_entry(&[34, 2, 1]) {
        Err(Error::Decode(error)) => {
            assert_eq!(error.to_string(), format!("{}WalEntry.data: buffer underflow", prefix))
        }
        _ => panic!("decoded"),
    }
}

#[test]
fn low_bits_of_a_number_count() {
    let decoded = WalEntry::decode(&[8, 0x81, 0x80, 0x80, 0x80, 0x10]).unwrap();
    assert_eq!(decoded.lsn, 1);
}

#[test]
fn checksum_is_verified() {
    // The CRC32 checksum of "123456789" is 0xcbf43926.
    let intact = entry(7, false, 0xcbf43926, b"123456789");
    let decoded = decode_entry(&encoded(&intact)).unwrap();
    assert!(same(&decoded, &intact));
}

#[test]
fn checksum_is_crc32() {
    let checksums: [(&[u8], u32); 4] = [
        (b"a", 0xe8b7be43),
        (b"hello world", 0x0d4a1185),
        (&[0; 32], 0x190a55ad),
        (&[0xff; 32], 0xff6cab0b),
    ];
    for (data, crc) in checksums {
        assert!(decode_entry(&encoded(&entry(7, false, crc, data))).is_ok());
        assert!(decode_entry(&encoded(&entry(7, false, crc ^ 1, data))).is_err());
    }
}

#[test]
fn no_data_has_checksum_zero() {
    let decoded = decode_entry(&encoded(&entry(7, true, 0, b""))).unwrap();
    assert!(same(&decoded, &entry(7, true, 0, b"")));
}

#[test]
fn corrupted_data_is_reported_with_its_lsn() {
    let corrupted = entry(7, false, 0xcbf43926, b"123456780");
    assert!(matches!(
        decode_entry(&encoded(&corrupted)),
        Err(Error::CorruptedWALEntry { lsn: 7 })
    ));
}

#[test]
fn corrupted_checksum_is_reported_with_its_lsn() {
    let corrupted = entry(8, false, 0xcbf43927, b"123456789");
    assert!(matches!(
        decode_entry(&encoded(&corrupted)),
        Err(Error::CorruptedWALEntry { lsn: 8 })
    ));
}

#[test]
fn malformed_bytes_are_reported() {
    assert!(matches!(decode_entry(&[8]), Err(Error::Decode(_))));
    assert!(matches!(decode_entry(&[10, 1, 1]), Err(Error::Decode(_))));
}

#[test]
fn verified_compares_checksums() {
    assert!(same(&entry(1, false, 5, b"a").verified(5).unwrap(), &entry(1, false, 5, b"a")));
    assert!(matches!(
        entry(1, false, 5, b"a").verified(6),
        Err(Error::CorruptedWALEntry { lsn: 1 })
    ));
}
