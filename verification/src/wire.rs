//! The protobuf wire format, as far as a log entry needs it.
//!
//! The spec functions say what the bytes of a field mean. The executable functions at the end hand
//! the work to `prost`.

use vstd::prelude::*;

verus! {

/// Wire type of a field whose value is a varint.
pub const VARINT: u8 = 0;

/// Wire type of a field whose value takes eight bytes.
pub const SIXTY_FOUR_BIT: u8 = 1;

/// Wire type of a field whose value is its own length followed by that many bytes.
pub const LENGTH_DELIMITED: u8 = 2;

/// Wire type of the key that opens a group.
pub const START_GROUP: u8 = 3;

/// Wire type of the key that closes a group.
pub const END_GROUP: u8 = 4;

/// Wire type of a field whose value takes four bytes.
pub const THIRTY_TWO_BIT: u8 = 5;

/// How many groups may be open at a time.
pub const MAX_OPEN_GROUPS: usize = 100;

/// The largest field number that a key can hold.
pub const MAX_TAG: u32 = 0x1fff_ffff;

// Writing.

/// The base 128 encoding of `value`: seven bits to a byte, lowest first, the top bit set on every
/// byte but the last.
pub open spec fn varint_bytes(value: nat) -> Seq<u8>
    decreases value,
{
    if value < 128 {
        seq![value as u8]
    } else {
        seq![(128 + value % 128) as u8] + varint_bytes(value / 128)
    }
}

/// The key that stands in front of a field's value.
pub open spec fn key_bytes(tag: u32, wire: u8) -> Seq<u8> {
    varint_bytes((8 * tag + wire) as nat)
}

/// A `uint32` field.
pub open spec fn uint32_bytes(tag: u32, value: u32) -> Seq<u8> {
    key_bytes(tag, VARINT) + varint_bytes(value as nat)
}

/// A `bool` field.
pub open spec fn bool_bytes(tag: u32, value: bool) -> Seq<u8> {
    key_bytes(tag, VARINT) + varint_bytes(if value { 1 } else { 0 })
}

/// A `bytes` field.
pub open spec fn bytes_bytes(tag: u32, value: Seq<u8>) -> Seq<u8> {
    key_bytes(tag, LENGTH_DELIMITED) + varint_bytes(value.len()) + value
}

// Reading.

/// The number at the head of `bytes`, in base 128 and at most `limit` bytes long, and what follows
/// it.
pub open spec fn base128(bytes: Seq<u8>, limit: nat) -> Option<(nat, Seq<u8>)>
    decreases limit,
{
    if limit == 0 || bytes.len() == 0 {
        None
    } else if bytes[0] < 128 {
        Some((bytes[0] as nat, bytes.skip(1)))
    } else {
        match base128(bytes.skip(1), (limit - 1) as nat) {
            Some((high, rest)) => Some(((bytes[0] - 128 + 128 * high) as nat, rest)),
            None => None,
        }
    }
}

/// The varint at the head of `bytes`, and what follows it: at most ten bytes, and a number of at
/// most 64 bits.
pub open spec fn varint(bytes: Seq<u8>) -> Option<(nat, Seq<u8>)> {
    match base128(bytes, 10) {
        Some((value, rest)) => if value <= u64::MAX { Some((value, rest)) } else { None },
        None => None,
    }
}

/// The key at the head of `bytes`: the field number, the wire type, and what follows the key.
pub open spec fn key(bytes: Seq<u8>) -> Option<(u32, u8, Seq<u8>)> {
    match varint(bytes) {
        Some((value, rest)) => if value <= u32::MAX && value / 8 >= 1 && value % 8 <= 5 {
            Some(((value / 8) as u32, (value % 8) as u8, rest))
        } else {
            None
        },
        None => None,
    }
}

/// The value of a `uint32` field whose key has been read: the low 32 bits of a varint.
pub open spec fn uint32_value(wire: u8, bytes: Seq<u8>) -> Option<(u32, Seq<u8>)> {
    if wire != VARINT {
        None
    } else {
        match varint(bytes) {
            Some((value, rest)) => Some(((value % 0x1_0000_0000) as u32, rest)),
            None => None,
        }
    }
}

/// The value of a `bool` field whose key has been read: whether a varint is other than zero.
pub open spec fn bool_value(wire: u8, bytes: Seq<u8>) -> Option<(bool, Seq<u8>)> {
    if wire != VARINT {
        None
    } else {
        match varint(bytes) {
            Some((value, rest)) => Some((value != 0, rest)),
            None => None,
        }
    }
}

/// The value of a `bytes` field whose key has been read.
pub open spec fn bytes_value(wire: u8, bytes: Seq<u8>) -> Option<(Seq<u8>, Seq<u8>)> {
    if wire != LENGTH_DELIMITED {
        None
    } else {
        match varint(bytes) {
            Some((len, rest)) => if len <= rest.len() {
                Some((rest.take(len as int), rest.skip(len as int)))
            } else {
                None
            },
            None => None,
        }
    }
}

/// What follows a value that is no group, of whatever field, whose key has been read.
pub open spec fn behind_value(wire: u8, bytes: Seq<u8>) -> Option<Seq<u8>> {
    if wire == VARINT {
        match varint(bytes) {
            Some((_, rest)) => Some(rest),
            None => None,
        }
    } else if wire == SIXTY_FOUR_BIT {
        if bytes.len() >= 8 { Some(bytes.skip(8)) } else { None }
    } else if wire == LENGTH_DELIMITED {
        match bytes_value(wire, bytes) {
            Some((_, rest)) => Some(rest),
            None => None,
        }
    } else if wire == THIRTY_TWO_BIT {
        if bytes.len() >= 4 { Some(bytes.skip(4)) } else { None }
    } else {
        None
    }
}

/// What follows the groups that have the field numbers `open`, outermost first, and whose opening
/// keys have been read. A group holds fields, and ends with a closing key of its own field number.
/// Inside of `MAX_OPEN_GROUPS` groups there may be no field.
pub open spec fn behind_groups(open: Seq<u32>, bytes: Seq<u8>) -> Option<Seq<u8>>
    decreases bytes.len(),
{
    if open.len() == 0 {
        Some(bytes)
    } else {
        proof {
            lemma_key_consumes(bytes);
            if let Some((_, wire, value)) = key(bytes) {
                lemma_value_consumes(wire, value);
            }
        }
        match key(bytes) {
            None => None,
            Some((tag, wire, value)) => if wire == END_GROUP {
                if tag == open.last() { behind_groups(open.drop_last(), value) } else { None }
            } else if open.len() >= MAX_OPEN_GROUPS {
                None
            } else if wire == START_GROUP {
                behind_groups(open.push(tag), value)
            } else {
                match behind_value(wire, value) {
                    Some(rest) => behind_groups(open, rest),
                    None => None,
                }
            },
        }
    }
}

/// What follows a value, of whatever field, whose key has been read.
pub open spec fn skipped(wire: u8, tag: u32, bytes: Seq<u8>) -> Option<Seq<u8>> {
    if wire == START_GROUP {
        behind_groups(seq![tag], bytes)
    } else {
        behind_value(wire, bytes)
    }
}

/// Where a decoder was: the names of messages, each with that of one of its fields.
pub type Context = Seq<(Seq<char>, Seq<char>)>;

/// The names of messages and fields that an error has been given, in the order in which it was given
/// them. An error also holds a description, of which nothing is said here.
pub uninterp spec fn context(error: prost::DecodeError) -> Seq<(Seq<char>, Seq<char>)>;

/// That of an error which does not tell where the decoder was.
pub open spec fn no_context() -> Context {
    Seq::empty()
}

// What writing and reading have to do with each other.

/// The number at the head of `bytes` takes at least one byte.
pub proof fn lemma_base128_consumes(bytes: Seq<u8>, limit: nat)
    ensures
        base128(bytes, limit) matches Some((_, rest)) ==> rest.len() < bytes.len(),
    decreases limit,
{
    if limit > 0 && bytes.len() > 0 && bytes[0] >= 128 {
        lemma_base128_consumes(bytes.skip(1), (limit - 1) as nat);
    }
}

/// A key takes at least one byte.
pub proof fn lemma_key_consumes(bytes: Seq<u8>)
    ensures
        key(bytes) matches Some((_, _, rest)) ==> rest.len() < bytes.len(),
{
    lemma_base128_consumes(bytes, 10);
}

/// What follows a value is no longer than the bytes that start with it.
pub proof fn lemma_value_consumes(wire: u8, bytes: Seq<u8>)
    ensures
        behind_value(wire, bytes) matches Some(rest) ==> rest.len() <= bytes.len(),
{
    lemma_base128_consumes(bytes, 10);
}

/// What follows a row of groups is no longer than the bytes that hold them.
pub proof fn lemma_groups_consume(open: Seq<u32>, bytes: Seq<u8>)
    ensures
        behind_groups(open, bytes) matches Some(rest) ==> rest.len() <= bytes.len(),
    decreases bytes.len(),
{
    lemma_key_consumes(bytes);
    if open.len() > 0 {
        if let Some((tag, wire, value)) = key(bytes) {
            lemma_value_consumes(wire, value);
            if wire == END_GROUP {
                lemma_groups_consume(open.drop_last(), value);
            } else if wire == START_GROUP {
                lemma_groups_consume(open.push(tag), value);
            } else if let Some(rest) = behind_value(wire, value) {
                lemma_groups_consume(open, rest);
            }
        }
    }
}

/// No value reaches back before its own first byte.
pub proof fn lemma_values_consume(wire: u8, tag: u32, bytes: Seq<u8>)
    ensures
        uint32_value(wire, bytes) matches Some((_, rest)) ==> rest.len() <= bytes.len(),
        bool_value(wire, bytes) matches Some((_, rest)) ==> rest.len() <= bytes.len(),
        bytes_value(wire, bytes) matches Some((_, rest)) ==> rest.len() <= bytes.len(),
        skipped(wire, tag, bytes) matches Some(rest) ==> rest.len() <= bytes.len(),
{
    lemma_base128_consumes(bytes, 10);
    lemma_value_consumes(wire, bytes);
    lemma_groups_consume(seq![tag], bytes);
}

/// Reading gives back the number that was written, whatever follows it.
pub proof fn lemma_base128_reads_back(value: nat, limit: nat, tail: Seq<u8>)
    requires
        limit >= 1,
        value < vstd::arithmetic::power::pow(128, limit),
    ensures
        base128(varint_bytes(value) + tail, limit) == Some((value, tail)),
    decreases limit,
{
    reveal(vstd::arithmetic::power::pow);
    let bytes = varint_bytes(value) + tail;
    if value < 128 {
        assert(bytes.skip(1) =~= tail);
    } else {
        let high = value / 128;
        reveal_with_fuel(vstd::arithmetic::power::pow, 2);
        assert(high < vstd::arithmetic::power::pow(128, (limit - 1) as nat)) by (nonlinear_arith)
            requires
                high == value / 128,
                value < 128 * vstd::arithmetic::power::pow(128, (limit - 1) as nat),
        ;
        lemma_base128_reads_back(high, (limit - 1) as nat, tail);
        assert(bytes.skip(1) =~= varint_bytes(high) + tail);
    }
}

/// Reading gives back the varint that was written, whatever follows it.
pub proof fn lemma_varint_reads_back(value: nat, tail: Seq<u8>)
    requires
        value <= u64::MAX,
    ensures
        varint(varint_bytes(value) + tail) == Some((value, tail)),
{
    assert(u64::MAX < vstd::arithmetic::power::pow(128, 10)) by {
        reveal_with_fuel(vstd::arithmetic::power::pow, 11);
    }
    lemma_base128_reads_back(value, 10, tail);
}

/// Reading gives back the key that was written, whatever follows it.
pub proof fn lemma_key_reads_back(tag: u32, wire: u8, tail: Seq<u8>)
    requires
        1 <= tag <= MAX_TAG,
        wire <= 5,
    ensures
        key(key_bytes(tag, wire) + tail) == Some((tag, wire, tail)),
{
    lemma_varint_reads_back((8 * tag + wire) as nat, tail);
}

/// Reading gives back the `uint32` field that was written, whatever follows it.
pub proof fn lemma_uint32_reads_back(tag: u32, value: u32, tail: Seq<u8>)
    requires
        1 <= tag <= MAX_TAG,
    ensures
        key(uint32_bytes(tag, value) + tail) matches Some((t, wire, rest)) && t == tag
            && uint32_value(wire, rest) == Some((value, tail)),
{
    let rest = varint_bytes(value as nat) + tail;
    assert(uint32_bytes(tag, value) + tail =~= key_bytes(tag, VARINT) + rest);
    lemma_key_reads_back(tag, VARINT, rest);
    lemma_varint_reads_back(value as nat, tail);
}

/// Reading gives back the `bool` field that was written, whatever follows it.
pub proof fn lemma_bool_reads_back(tag: u32, value: bool, tail: Seq<u8>)
    requires
        1 <= tag <= MAX_TAG,
    ensures
        key(bool_bytes(tag, value) + tail) matches Some((t, wire, rest)) && t == tag
            && bool_value(wire, rest) == Some((value, tail)),
{
    let number: nat = if value { 1 } else { 0 };
    let rest = varint_bytes(number) + tail;
    assert(bool_bytes(tag, value) + tail =~= key_bytes(tag, VARINT) + rest);
    lemma_key_reads_back(tag, VARINT, rest);
    lemma_varint_reads_back(number, tail);
}

/// Reading gives back the `bytes` field that was written, whatever follows it.
pub proof fn lemma_bytes_reads_back(tag: u32, value: Seq<u8>, tail: Seq<u8>)
    requires
        1 <= tag <= MAX_TAG,
        value.len() <= u64::MAX,
    ensures
        key(bytes_bytes(tag, value) + tail) matches Some((t, wire, rest)) && t == tag
            && bytes_value(wire, rest) == Some((value, tail)),
{
    let rest = varint_bytes(value.len()) + (value + tail);
    assert(bytes_bytes(tag, value) + tail =~= key_bytes(tag, LENGTH_DELIMITED) + rest);
    lemma_key_reads_back(tag, LENGTH_DELIMITED, rest);
    lemma_varint_reads_back(value.len(), value + tail);
    assert((value + tail).take(value.len() as int) =~= value);
    assert((value + tail).skip(value.len() as int) =~= tail);
}

/// A number is read the same whatever follows it.
pub proof fn lemma_base128_extends(bytes: Seq<u8>, tail: Seq<u8>, limit: nat)
    ensures
        base128(bytes, limit) matches Some((value, rest)) ==> base128(bytes + tail, limit) == Some(
            (value, rest + tail),
        ),
    decreases limit,
{
    if limit > 0 && bytes.len() > 0 {
        assert((bytes + tail).skip(1) =~= bytes.skip(1) + tail);
        lemma_base128_extends(bytes.skip(1), tail, (limit - 1) as nat);
    }
}

/// A key is read the same whatever follows it.
pub proof fn lemma_key_extends(bytes: Seq<u8>, tail: Seq<u8>)
    ensures
        key(bytes) matches Some((tag, wire, rest)) ==> key(bytes + tail) == Some(
            (tag, wire, rest + tail),
        ),
{
    lemma_base128_extends(bytes, tail, 10);
}

/// A value that is no group is passed over the same whatever follows it.
pub proof fn lemma_value_extends(wire: u8, bytes: Seq<u8>, tail: Seq<u8>)
    ensures
        bytes_value(wire, bytes) matches Some((value, rest)) ==> bytes_value(wire, bytes + tail)
            == Some((value, rest + tail)),
        behind_value(wire, bytes) matches Some(rest) ==> behind_value(wire, bytes + tail) == Some(
            rest + tail,
        ),
{
    lemma_base128_extends(bytes, tail, 10);
    if wire == LENGTH_DELIMITED {
        if let Some((len, rest)) = varint(bytes) {
            if len <= rest.len() {
                let len = len as int;
                assert((rest + tail).take(len) =~= rest.take(len));
                assert((rest + tail).skip(len) =~= rest.skip(len) + tail);
            }
        }
    } else if wire == SIXTY_FOUR_BIT {
        assert(bytes.len() >= 8 ==> (bytes + tail).skip(8) =~= bytes.skip(8) + tail);
    } else if wire == THIRTY_TWO_BIT {
        assert(bytes.len() >= 4 ==> (bytes + tail).skip(4) =~= bytes.skip(4) + tail);
    }
}

/// Groups are passed over the same whatever follows them.
pub proof fn lemma_groups_extend(open: Seq<u32>, bytes: Seq<u8>, tail: Seq<u8>)
    ensures
        behind_groups(open, bytes) matches Some(rest) ==> behind_groups(open, bytes + tail) == Some(
            rest + tail,
        ),
    decreases bytes.len(),
{
    if open.len() > 0 {
        lemma_key_extends(bytes, tail);
        lemma_key_consumes(bytes);
        if let Some((tag, wire, value)) = key(bytes) {
            lemma_value_extends(wire, value, tail);
            lemma_value_consumes(wire, value);
            if wire == END_GROUP {
                lemma_groups_extend(open.drop_last(), value, tail);
            } else if wire == START_GROUP {
                lemma_groups_extend(open.push(tag), value, tail);
            } else if let Some(rest) = behind_value(wire, value) {
                lemma_groups_extend(open, rest, tail);
            }
        }
    }
}

/// A value is read, or passed over, the same whatever follows it.
pub proof fn lemma_values_extend(wire: u8, tag: u32, bytes: Seq<u8>, tail: Seq<u8>)
    ensures
        uint32_value(wire, bytes) matches Some((value, rest)) ==> uint32_value(wire, bytes + tail)
            == Some((value, rest + tail)),
        bool_value(wire, bytes) matches Some((value, rest)) ==> bool_value(wire, bytes + tail)
            == Some((value, rest + tail)),
        bytes_value(wire, bytes) matches Some((value, rest)) ==> bytes_value(wire, bytes + tail)
            == Some((value, rest + tail)),
        skipped(wire, tag, bytes) matches Some(rest) ==> skipped(wire, tag, bytes + tail) == Some(
            rest + tail,
        ),
{
    lemma_base128_extends(bytes, tail, 10);
    lemma_value_extends(wire, bytes, tail);
    lemma_groups_extend(seq![tag], bytes, tail);
}

/// A varint of at most 32 bits takes from one to five bytes.
pub proof fn lemma_varint_len_of_u32(value: u32)
    ensures
        1 <= varint_bytes(value as nat).len() <= 5,
{
    reveal_with_fuel(varint_bytes, 6);
}

/// A varint of at most 64 bits takes from one to ten bytes.
pub proof fn lemma_varint_len(value: nat)
    requires
        value <= u64::MAX,
    ensures
        1 <= varint_bytes(value).len() <= 10,
{
    reveal_with_fuel(varint_bytes, 11);
}

/// Why bytes are no protobuf message.
#[verifier::external_type_specification]
#[verifier::external_body]
pub struct ExDecodeError(prost::DecodeError);

/// `prost::DecodeError::push` adds the names of a message and of one of its fields to those that the
/// error has been given.
pub assume_specification[ prost::DecodeError::push ](
    error: &mut prost::DecodeError,
    message: &'static str,
    field: &'static str,
)
    ensures
        context(*final(error)) == context(*old(error)).push((message@, field@)),
;

/// `prost::encoding::uint32::encode` appends a `uint32` field.
#[verifier::external_body]
pub(crate) fn encode_uint32(tag: u32, value: u32, buf: &mut Vec<u8>)
    requires
        1 <= tag <= MAX_TAG,
        old(buf)@.len() + uint32_bytes(tag, value).len() <= isize::MAX,
    ensures
        final(buf)@ == old(buf)@ + uint32_bytes(tag, value),
{
    prost::encoding::uint32::encode(tag, &value, buf)
}

/// `prost::encoding::bool::encode` appends a `bool` field.
#[verifier::external_body]
pub(crate) fn encode_bool(tag: u32, value: bool, buf: &mut Vec<u8>)
    requires
        1 <= tag <= MAX_TAG,
        old(buf)@.len() + bool_bytes(tag, value).len() <= isize::MAX,
    ensures
        final(buf)@ == old(buf)@ + bool_bytes(tag, value),
{
    prost::encoding::bool::encode(tag, &value, buf)
}

/// `prost::encoding::bytes::encode` appends a `bytes` field.
#[verifier::external_body]
pub(crate) fn encode_bytes(tag: u32, value: &Vec<u8>, buf: &mut Vec<u8>)
    requires
        1 <= tag <= MAX_TAG,
        old(buf)@.len() + bytes_bytes(tag, value@).len() <= isize::MAX,
    ensures
        final(buf)@ == old(buf)@ + bytes_bytes(tag, value@),
{
    prost::encoding::bytes::encode(tag, value, buf)
}

/// `prost::encoding::uint32::encoded_len` is the length of a `uint32` field, its key included.
#[verifier::external_body]
pub(crate) fn encoded_len_uint32(tag: u32, value: u32) -> (len: usize)
    requires
        1 <= tag <= MAX_TAG,
    ensures
        len == uint32_bytes(tag, value).len(),
{
    prost::encoding::uint32::encoded_len(tag, &value)
}

/// `prost::encoding::bool::encoded_len` is the length of a `bool` field, its key included.
#[verifier::external_body]
pub(crate) fn encoded_len_bool(tag: u32, value: bool) -> (len: usize)
    requires
        1 <= tag <= MAX_TAG,
    ensures
        len == bool_bytes(tag, value).len(),
{
    prost::encoding::bool::encoded_len(tag, &value)
}

/// `prost::encoding::bytes::encoded_len` is the length of a `bytes` field, its key included.
#[verifier::external_body]
pub(crate) fn encoded_len_bytes(tag: u32, value: &Vec<u8>) -> (len: usize)
    requires
        1 <= tag <= MAX_TAG,
        bytes_bytes(tag, value@).len() <= usize::MAX,
    ensures
        len == bytes_bytes(tag, value@).len(),
{
    prost::encoding::bytes::encoded_len(tag, value)
}

/// `prost::encoding::decode_key` reads the key at the head of `bytes`. It fails exactly where no
/// key stands there, with an error that has been given no names.
#[verifier::external_body]
pub(crate) fn decode_key(bytes: &[u8]) -> (r: Result<(u32, u8, &[u8]), prost::DecodeError>)
    ensures
        match r {
            Ok((tag, wire, rest)) => key(bytes@) == Some((tag, wire, rest@)),
            Err(error) => key(bytes@) is None && context(error) == no_context(),
        },
{
    let mut rest: &[u8] = bytes;
    let (tag, wire) = prost::encoding::decode_key(&mut rest)?;
    Ok((tag, wire as u8, rest))
}

/// `prost::encoding::uint32::merge`, with the wire type that `prost::encoding::WireType` has for the
/// number `wire`, reads the value of a `uint32` field. It fails exactly where the wire type is
/// another or no varint follows, with an error that has been given no names.
#[verifier::external_body]
pub(crate) fn merge_uint32(wire: u8, bytes: &[u8]) -> (r: Result<(u32, &[u8]), prost::DecodeError>)
    ensures
        match r {
            Ok((value, rest)) => uint32_value(wire, bytes@) == Some((value, rest@)),
            Err(error) => uint32_value(wire, bytes@) is None && context(error) == no_context(),
        },
{
    let mut rest: &[u8] = bytes;
    let mut value: u32 = 0;
    let wire_type = prost::encoding::WireType::try_from(wire as u64)?;
    prost::encoding::uint32::merge(wire_type, &mut value, &mut rest, Default::default())?;
    Ok((value, rest))
}

/// `prost::encoding::bool::merge`, with the wire type that `prost::encoding::WireType` has for the
/// number `wire`, reads the value of a `bool` field. It fails exactly where the wire type is another
/// or no varint follows, with an error that has been given no names.
#[verifier::external_body]
pub(crate) fn merge_bool(wire: u8, bytes: &[u8]) -> (r: Result<(bool, &[u8]), prost::DecodeError>)
    ensures
        match r {
            Ok((value, rest)) => bool_value(wire, bytes@) == Some((value, rest@)),
            Err(error) => bool_value(wire, bytes@) is None && context(error) == no_context(),
        },
{
    let mut rest: &[u8] = bytes;
    let mut value: bool = false;
    let wire_type = prost::encoding::WireType::try_from(wire as u64)?;
    prost::encoding::bool::merge(wire_type, &mut value, &mut rest, Default::default())?;
    Ok((value, rest))
}

/// `prost::encoding::bytes::merge`, with the wire type that `prost::encoding::WireType` has for the
/// number `wire`, reads the value of a `bytes` field. It fails exactly where the wire type is
/// another, no varint follows, or fewer bytes are left than the varint says, with an error that has
/// been given no names.
#[verifier::external_body]
pub(crate) fn merge_bytes(wire: u8, bytes: &[u8]) -> (r: Result<
    (Vec<u8>, &[u8]),
    prost::DecodeError,
>)
    ensures
        match r {
            Ok((value, rest)) => bytes_value(wire, bytes@) == Some((value@, rest@)),
            Err(error) => bytes_value(wire, bytes@) is None && context(error) == no_context(),
        },
{
    let mut rest: &[u8] = bytes;
    let mut value: Vec<u8> = Vec::new();
    let wire_type = prost::encoding::WireType::try_from(wire as u64)?;
    prost::encoding::bytes::merge(wire_type, &mut value, &mut rest, Default::default())?;
    Ok((value, rest))
}

/// `prost::encoding::skip_field`, with the wire type that `prost::encoding::WireType` has for the
/// number `wire`, passes over a value of any wire type. It fails exactly where no value of that wire
/// type stands there, or where there are fields inside of more groups than `prost` allows, with an
/// error that has been given no names.
#[verifier::external_body]
pub(crate) fn skip_field(wire: u8, tag: u32, bytes: &[u8]) -> (r: Result<
    &[u8],
    prost::DecodeError,
>)
    ensures
        match r {
            Ok(rest) => skipped(wire, tag, bytes@) == Some(rest@),
            Err(error) => skipped(wire, tag, bytes@) is None && context(error) == no_context(),
        },
{
    let mut rest: &[u8] = bytes;
    let wire_type = prost::encoding::WireType::try_from(wire as u64)?;
    prost::encoding::skip_field(wire_type, tag, &mut rest, Default::default())?;
    Ok(rest)
}

} // verus!
