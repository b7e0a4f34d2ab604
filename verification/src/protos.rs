//! The protobuf encoding of the messages on the wire.
//!
//! A request is a message whose only field is its command: field 1 for a
//! get, 2 for a set, 3 for a delete, each a message that holds the key as
//! field 1 and, for a set, the value as field 2. A get reply holds the value
//! as field 1 and the error as field 2; a set or delete reply holds its
//! status as field 1. As protobuf does for such fields, empty strings and
//! byte strings and false statuses are left out when writing; when reading,
//! fields in any order, repeated fields and unknown fields are taken as
//! protobuf takes them.
use vstd::prelude::*;
use vstd::slice::slice_subrange;
use vstd::utf8::{decode_utf8, encode_utf8, valid_utf8};

use crate::command::{action_key, ActionModel, Reply, ReplyModel};
use crate::kv::{Command, DeleteRequest, GetReply, GetRequest, Request, SetRequest};

verus! {

broadcast use vstd::utf8::encode_utf8_valid_utf8, vstd::utf8::encode_utf8_decode_utf8;

/// `protobuf::Error`, the error of the protobuf runtime.
#[verifier::external_type_specification]
#[verifier::external_body]
pub struct ExProtobufError(protobuf::Error);

/// The largest message that the protobuf runtime writes.
pub const MAX_MESSAGE_SIZE: usize = 0x7fff_ffff;

/// The base-128 varint encoding of `n`: seven bits per byte, lowest first,
/// the high bit set on every byte but the last.
pub open spec fn varint(n: nat) -> Seq<u8>
    decreases n,
{
    if n < 128 {
        seq![n as u8]
    } else {
        seq![(n % 128 + 128) as u8] + varint(n / 128)
    }
}

/// The tag of a field: its number and its wire type.
pub open spec fn tag_of(field: nat, wire_type: nat) -> nat {
    field * 8 + wire_type
}

/// A length-delimited field: its tag, the length of its data, the data.
pub open spec fn ld_field(field: nat, data: Seq<u8>) -> Seq<u8> {
    varint(tag_of(field, 2)) + varint(data.len()) + data
}

/// A boolean field: its tag, then one or zero as a varint.
pub open spec fn bool_field(field: nat, value: bool) -> Seq<u8> {
    varint(tag_of(field, 0)) + varint(if value {
        1
    } else {
        0
    })
}

/// A length-delimited field that is left out when its data is empty.
pub open spec fn opt_ld_field(field: nat, data: Seq<u8>) -> Seq<u8> {
    if data.len() == 0 {
        Seq::empty()
    } else {
        ld_field(field, data)
    }
}

/// The field of a request that carries a command of the action's kind.
pub open spec fn command_field(action: ActionModel) -> nat {
    match action {
        ActionModel::Get { .. } => 1,
        ActionModel::Put { .. } => 2,
        ActionModel::Delete { .. } => 3,
    }
}

/// The bytes of the key of an action.
pub open spec fn action_key_bytes(action: ActionModel) -> Seq<u8> {
    encode_utf8(action_key(action))
}

/// The value of an action, empty for one that has none.
pub open spec fn action_value(action: ActionModel) -> Seq<u8> {
    match action {
        ActionModel::Put { value, .. } => value,
        _ => Seq::empty(),
    }
}

/// The encoding of the command message of an action.
pub open spec fn command_wire(action: ActionModel) -> Seq<u8> {
    match action {
        ActionModel::Get { key } => opt_ld_field(1, encode_utf8(key)),
        ActionModel::Put { key, value } => opt_ld_field(1, encode_utf8(key)) + opt_ld_field(2, value),
        ActionModel::Delete { key } => opt_ld_field(1, encode_utf8(key)),
    }
}

/// The encoding of a request that carries the action.
pub open spec fn request_wire(action: ActionModel) -> Seq<u8> {
    ld_field(command_field(action), command_wire(action))
}

/// The encoding of a reply.
pub open spec fn reply_wire(reply: ReplyModel) -> Seq<u8> {
    match reply {
        ReplyModel::Get { value, err } => opt_ld_field(1, value) + opt_ld_field(2, encode_utf8(err)),
        ReplyModel::Put { status } => if status {
            bool_field(1, true)
        } else {
            Seq::empty()
        },
        ReplyModel::Delete { status } => if status {
            bool_field(1, true)
        } else {
            Seq::empty()
        },
    }
}

/// A varint of a number below `2^35` takes at most five bytes.
proof fn lemma_varint_len(n: nat)
    requires
        n < 0x8_0000_0000,
    ensures
        1 <= varint(n).len() <= 5,
        n < 128 ==> varint(n) == seq![n as u8],
{
    reveal_with_fuel(varint, 6);
    if n >= 128 {
        assert(n / 128 < 0x1000_0000);
        if n / 128 >= 128 {
            assert(n / 128 / 128 < 0x20_0000);
            if n / 128 / 128 >= 128 {
                assert(n / 128 / 128 / 128 < 0x4000);
                if n / 128 / 128 / 128 >= 128 {
                    assert(n / 128 / 128 / 128 / 128 < 128);
                }
            }
        }
    }
}

/// The number of bytes of the varint of `n`.
fn varint_len(n: u64) -> (len: u64)
    requires
        n <= u32::MAX,
    ensures
        len == varint(n as nat).len(),
        1 <= len <= 5,
{
    proof {
        lemma_varint_len(n as nat);
        reveal_with_fuel(varint, 6);
    }
    if n < 128 {
        1
    } else if n < 0x4000 {
        assert(n / 128 < 128);
        2
    } else if n < 0x20_0000 {
        assert(n / 128 / 128 < 128);
        assert(n / 128 >= 128);
        3
    } else if n < 0x1000_0000 {
        assert(n / 128 / 128 / 128 < 128);
        assert(n / 128 / 128 >= 128);
        4
    } else {
        assert(n / 128 / 128 / 128 >= 128);
        5
    }
}

/// The number of bytes of an optional length-delimited field with a
/// one-byte tag and `n` bytes of data.
fn opt_ld_len(n: u64, field: u32) -> (len: u64)
    requires
        n <= MAX_MESSAGE_SIZE,
        1 <= field <= 15,
    ensures
        forall|data: Seq<u8>| data.len() == n ==> #[trigger] opt_ld_field(field as nat, data).len() == len,
        len <= n + 6,
{
    proof {
        lemma_varint_len(tag_of(field as nat, 2));
    }
    if n == 0 {
        0
    } else {
        1 + varint_len(n) + n
    }
}

/// Calls `protobuf::CodedOutputStream::write_bytes` on a stream that
/// appends to `out`, then `flush`. Claimed: the field is appended, its tag
/// and its length as varints, then the data; writing to a vector never
/// fails.
#[verifier::external_body]
fn write_bytes_field(out: &mut Vec<u8>, field: u32, data: &[u8]) -> (written: Result<(), protobuf::Error>)
    requires
        1 <= field <= 15,
        data@.len() <= u32::MAX,
    ensures
        written is Ok,
        final(out)@ == old(out)@ + ld_field(field as nat, data@),
{
    let mut stream = protobuf::CodedOutputStream::vec(out);
    stream.write_bytes(field, data)?;
    stream.flush()
}

/// Calls `protobuf::CodedOutputStream::write_bool` on a stream that appends
/// to `out`, then `flush`. Claimed: the field's tag and then one or zero are
/// appended as varints; writing to a vector never fails.
#[verifier::external_body]
fn write_bool_field(out: &mut Vec<u8>, field: u32, value: bool) -> (written: Result<(), protobuf::Error>)
    requires
        1 <= field <= 15,
    ensures
        written is Ok,
        final(out)@ == old(out)@ + bool_field(field as nat, value),
{
    let mut stream = protobuf::CodedOutputStream::vec(out);
    stream.write_bool(field, value)?;
    stream.flush()
}

/// Appends a length-delimited field unless its data is empty.
fn write_opt_bytes_field(out: &mut Vec<u8>, field: u32, data: &[u8])
    requires
        1 <= field <= 15,
        data@.len() <= u32::MAX,
    ensures
        final(out)@ == old(out)@ + opt_ld_field(field as nat, data@),
{
    if data.len() == 0 {
        assert(old(out)@ + opt_ld_field(field as nat, data@) =~= old(out)@);
    } else {
        let _ = write_bytes_field(out, field, data);
    }
}

/// Encodes a request; `None` when it would be larger than the protobuf
/// runtime writes.
pub fn encode_request(request: &Request) -> (bytes: Option<Vec<u8>>)
    requires
        request.command is Some,
    ensures
        bytes is Some == (request_wire(request.command.unwrap()@).len() <= MAX_MESSAGE_SIZE),
        bytes matches Some(b) ==> b@ == request_wire(request.command.unwrap()@),
{
    let command = request.command.as_ref().unwrap();
    let ghost action = command@;
    let (field, key, value): (u32, &[u8], &[u8]) = match command {
        Command::Get(get) => (1, get.key.as_str().as_bytes(), &[]),
        Command::Put(set) => (2, set.key.as_str().as_bytes(), set.value.as_slice()),
        Command::Delete(delete) => (3, delete.key.as_str().as_bytes(), &[]),
    };
    assert(key@ == action_key_bytes(action));
    assert(value@ =~= action_value(action));
    assert(command_wire(action) =~= opt_ld_field(1, key@) + opt_ld_field(2, value@));
    proof {
        lemma_varint_len(tag_of(field as nat, 2));
    }
    if key.len() > MAX_MESSAGE_SIZE || value.len() > MAX_MESSAGE_SIZE {
        return None;
    }
    let body_len: u64 = opt_ld_len(key.len() as u64, 1) + opt_ld_len(value.len() as u64, 2);
    if body_len > MAX_MESSAGE_SIZE as u64 {
        return None;
    }
    let total: u64 = 1 + varint_len(body_len) + body_len;
    if total > MAX_MESSAGE_SIZE as u64 {
        return None;
    }
    let mut body: Vec<u8> = Vec::new();
    write_opt_bytes_field(&mut body, 1, key);
    write_opt_bytes_field(&mut body, 2, value);
    assert(body@ =~= command_wire(action));
    let mut bytes: Vec<u8> = Vec::new();
    let _ = write_bytes_field(&mut bytes, field, body.as_slice());
    assert(bytes@ =~= request_wire(action));
    Some(bytes)
}

/// Encodes a reply; `None` when it would be larger than the protobuf runtime
/// writes.
pub fn encode_reply(reply: &Reply) -> (bytes: Option<Vec<u8>>)
    ensures
        bytes is Some == (reply_wire(reply@).len() <= MAX_MESSAGE_SIZE),
        bytes matches Some(b) ==> b@ == reply_wire(reply@),
{
    let mut bytes: Vec<u8> = Vec::new();
    match reply {
        Reply::Get(get) => {
            let value = get.value.as_slice();
            let err = get.err.as_str().as_bytes();
            if value.len() > MAX_MESSAGE_SIZE || err.len() > MAX_MESSAGE_SIZE {
                return None;
            }
            let total: u64 = opt_ld_len(value.len() as u64, 1) + opt_ld_len(err.len() as u64, 2);
            if total > MAX_MESSAGE_SIZE as u64 {
                return None;
            }
            write_opt_bytes_field(&mut bytes, 1, value);
            write_opt_bytes_field(&mut bytes, 2, err);
        },
        Reply::Put(set) => {
            if set.status {
                let _ = write_bool_field(&mut bytes, 1, true);
            }
        },
        Reply::Delete(delete) => {
            if delete.status {
                let _ = write_bool_field(&mut bytes, 1, true);
            }
        },
    }
    proof {
        lemma_varint_len(8);
        lemma_varint_len(1);
    }
    assert(bytes@ =~= reply_wire(reply@));
    Some(bytes)
}

/// One field of a message on the wire, of one of the wire types that
/// messages use: length-delimited, varint, eight bytes, four bytes.
pub enum WireField {
    Bytes { field: nat, data: Seq<u8> },
    Varint { field: nat, value: nat },
    Fixed64 { field: nat, data: Seq<u8> },
    Fixed32 { field: nat, data: Seq<u8> },
}

/// The number of a field.
pub open spec fn field_number(f: WireField) -> nat {
    match f {
        WireField::Bytes { field, .. } => field,
        WireField::Varint { field, .. } => field,
        WireField::Fixed64 { field, .. } => field,
        WireField::Fixed32 { field, .. } => field,
    }
}

/// The wire type of a field.
pub open spec fn wire_type_of(f: WireField) -> nat {
    match f {
        WireField::Bytes { .. } => 2,
        WireField::Varint { .. } => 0,
        WireField::Fixed64 { .. } => 1,
        WireField::Fixed32 { .. } => 5,
    }
}

/// The encoding of one field: its tag, then its content.
pub open spec fn field_wire(f: WireField) -> Seq<u8> {
    match f {
        WireField::Bytes { field, data } => ld_field(field, data),
        WireField::Varint { field, value } => varint(tag_of(field, 0)) + varint(value),
        WireField::Fixed64 { field, data } => varint(tag_of(field, 1)) + data,
        WireField::Fixed32 { field, data } => varint(tag_of(field, 5)) + data,
    }
}

/// A field as protobuf writes it: a number from 1 whose tag fits in 32
/// bits, and content of the size its wire type has.
pub open spec fn well_formed_field(f: WireField) -> bool {
    &&& 1 <= field_number(f)
    &&& tag_of(field_number(f), 7) <= u32::MAX
    &&& match f {
        WireField::Bytes { data, .. } => data.len() <= u32::MAX,
        WireField::Varint { value, .. } => value <= u64::MAX,
        WireField::Fixed64 { data, .. } => data.len() == 8,
        WireField::Fixed32 { data, .. } => data.len() == 4,
    }
}

/// All the fields are well formed.
pub open spec fn well_formed_fields(fields: Seq<WireField>) -> bool {
    forall|i: int| 0 <= i < fields.len() ==> #[trigger] well_formed_field(fields[i])
}

/// The encoding of fields, one after the other.
pub open spec fn fields_wire(fields: Seq<WireField>) -> Seq<u8>
    decreases fields.len(),
{
    if fields.len() == 0 {
        Seq::empty()
    } else {
        fields_wire(fields.drop_last()) + field_wire(fields.last())
    }
}

/// Whether the bytes are the encoding of these well-formed fields.
pub open spec fn parses_as(bytes: Seq<u8>, fields: Seq<WireField>) -> bool {
    well_formed_fields(fields) && fields_wire(fields) == bytes
}

/// Whether the bytes are a message: well-formed fields one after the other.
pub open spec fn is_message(bytes: Seq<u8>) -> bool {
    exists|fields: Seq<WireField>| parses_as(bytes, fields)
}

/// The fields of a message.
pub open spec fn message_fields(bytes: Seq<u8>) -> Seq<WireField> {
    choose|fields: Seq<WireField>| parses_as(bytes, fields)
}

/// A field that the messages of this protocol know: the data of a
/// length-delimited field 1, 2 or 3, or the flag of a varint field 1.
pub enum KnownField {
    Bytes { field: nat, data: Seq<u8> },
    Flag { value: bool },
}

/// The known fields among the fields, in order; the others are skipped.
pub open spec fn known_of(fields: Seq<WireField>) -> Seq<KnownField>
    decreases fields.len(),
{
    if fields.len() == 0 {
        Seq::empty()
    } else {
        let before = known_of(fields.drop_last());
        match fields.last() {
            WireField::Bytes { field, data } => if 1 <= field <= 3 {
                before.push(KnownField::Bytes { field, data })
            } else {
                before
            },
            WireField::Varint { field, value } => if field == 1 {
                before.push(KnownField::Flag { value: value != 0 })
            } else {
                before
            },
            _ => before,
        }
    }
}

/// The known fields of a message.
pub open spec fn message_known(bytes: Seq<u8>) -> Seq<KnownField> {
    known_of(message_fields(bytes))
}

proof fn lemma_fields_wire_concat(a: Seq<WireField>, b: Seq<WireField>)
    ensures
        fields_wire(a + b) == fields_wire(a) + fields_wire(b),
    decreases b.len(),
{
    if b.len() == 0 {
        assert(a + b =~= a);
        assert(fields_wire(a) + fields_wire(b) =~= fields_wire(a));
    } else {
        assert((a + b).drop_last() =~= a + b.drop_last());
        lemma_fields_wire_concat(a, b.drop_last());
        assert(fields_wire(a + b) =~= fields_wire(a) + fields_wire(b));
    }
}

proof fn lemma_fields_wire_single(f: WireField)
    ensures
        fields_wire(seq![f]) == field_wire(f),
{
    reveal_with_fuel(fields_wire, 2);
    assert(seq![f].drop_last() =~= Seq::<WireField>::empty());
    assert(seq![f].last() == f);
    assert(fields_wire(Seq::<WireField>::empty()) =~= Seq::<u8>::empty());
    assert(fields_wire(seq![f]) =~= field_wire(f));
}

/// The rest of the fields after `done` of them start with field `done`.
proof fn lemma_fields_wire_rest(fields: Seq<WireField>, done: int)
    requires
        0 <= done < fields.len(),
    ensures
        fields_wire(fields) == fields_wire(fields.take(done)) + field_wire(fields[done])
            + fields_wire(fields.skip(done + 1)),
        fields_wire(fields.take(done + 1)) == fields_wire(fields.take(done)) + field_wire(
            fields[done],
        ),
        fields.take(done + 1).drop_last() == fields.take(done),
        fields.take(done + 1).last() == fields[done],
{
    assert(fields =~= fields.take(done) + (seq![fields[done]] + fields.skip(done + 1)));
    lemma_fields_wire_concat(fields.take(done), seq![fields[done]] + fields.skip(done + 1));
    lemma_fields_wire_concat(seq![fields[done]], fields.skip(done + 1));
    lemma_fields_wire_single(fields[done]);
    assert(fields.take(done + 1).drop_last() =~= fields.take(done));
}

/// Whether a read that took `used` bytes took no more than there are.
pub open spec fn takes_at_most(used: u64, bytes: Seq<u8>) -> bool {
    used <= bytes.len()
}

/// Whether a read that took `used` bytes took at least one and no more than
/// there are.
pub open spec fn takes_some_of(used: u64, bytes: Seq<u8>) -> bool {
    0 < used <= bytes.len()
}

/// Whether the bytes start with the varint of `n`, a number no larger than
/// `max`.
pub open spec fn starts_with_varint(bytes: Seq<u8>, n: nat, max: nat) -> bool {
    n <= max && varint(n).is_prefix_of(bytes)
}

/// Data after its length as a varint.
pub open spec fn length_prefixed(data: Seq<u8>) -> Seq<u8> {
    varint(data.len()) + data
}

/// Whether the bytes start with `data` after its length, a length that
/// fits in 32 bits.
pub open spec fn starts_with_length_prefixed(bytes: Seq<u8>, data: Seq<u8>) -> bool {
    data.len() <= u32::MAX && length_prefixed(data).is_prefix_of(bytes)
}

/// A value read from the start of some bytes, and how many bytes it took.
struct Taken<T> {
    value: T,
    used: u64,
}

/// Whether reading a tag gave `value` and took `used` bytes.
spec fn tag_read_as(got: Result<Option<Taken<u32>>, protobuf::Error>, value: nat, used: nat) -> bool {
    got matches Ok(Some(tag)) && tag.value == value && tag.used == used
}

/// Whether reading a length-delimited field gave `data` and took `used`
/// bytes.
spec fn bytes_read_as(got: Result<Taken<Vec<u8>>, protobuf::Error>, data: Seq<u8>, used: nat) -> bool {
    got matches Ok(field) && field.value@ == data && field.used == used
}

/// Whether reading a flag gave `value` and took `used` bytes.
spec fn flag_read_as(got: Result<Taken<bool>, protobuf::Error>, value: bool, used: nat) -> bool {
    got matches Ok(field) && field.value == value && field.used == used
}

/// Whether skipping a field of wire type `wire_type`, when that is
/// `expected`, took `used` bytes.
spec fn skip_took(
    skipped: Result<Option<u64>, protobuf::Error>,
    wire_type: u32,
    expected: nat,
    used: nat,
) -> bool {
    wire_type == expected ==> (skipped matches Ok(Some(n)) && n == used)
}

/// Whether skipping a field of a fixed-size wire type took its size, when
/// there are that many bytes.
spec fn fixed_skip(skipped: Result<Option<u64>, protobuf::Error>, wire_type: u32, bytes: Seq<u8>) -> bool {
    &&& bytes.len() >= 8 ==> skip_took(skipped, wire_type, 1, 8)
    &&& bytes.len() >= 4 ==> skip_took(skipped, wire_type, 5, 4)
}

/// Calls `protobuf::CodedInputStream::read_raw_tag_or_eof` on a stream over
/// `bytes`, and `pos` for the bytes it took. Claimed: a tag takes at least
/// one byte and no more than there are; bytes that start with the varint of
/// a 32-bit number give that number, taking the varint's bytes.
#[verifier::external_body]
fn read_tag(bytes: &[u8]) -> (got: Result<Option<Taken<u32>>, protobuf::Error>)
    ensures
        got matches Ok(Some(tag)) ==> takes_some_of(tag.used, bytes@),
        forall|t: nat| #[trigger]
            starts_with_varint(bytes@, t, u32::MAX as nat) ==> tag_read_as(got, t, varint(t).len()),
{
    let mut stream = protobuf::CodedInputStream::from_bytes(bytes);
    let tag = stream.read_raw_tag_or_eof()?;
    Ok(match tag {
        Some(tag) => Some(Taken { value: tag, used: stream.pos() }),
        None => None,
    })
}

/// Calls `protobuf::CodedInputStream::read_bytes` on a stream over `bytes`,
/// and `pos` for the bytes it took. Claimed: it takes no more bytes than
/// there are; when the bytes start with a varint length and that many bytes
/// of data, it gives that data and takes exactly those bytes.
#[verifier::external_body]
fn read_bytes_field(bytes: &[u8]) -> (got: Result<Taken<Vec<u8>>, protobuf::Error>)
    ensures
        got matches Ok(field) ==> takes_at_most(field.used, bytes@),
        forall|data: Seq<u8>| #[trigger]
            starts_with_length_prefixed(bytes@, data) ==> bytes_read_as(
                got,
                data,
                length_prefixed(data).len(),
            ),
{
    let mut stream = protobuf::CodedInputStream::from_bytes(bytes);
    let value = stream.read_bytes()?;
    Ok(Taken { value, used: stream.pos() })
}

/// Calls `protobuf::CodedInputStream::read_bool` on a stream over `bytes`,
/// and `pos` for the bytes it took. Claimed: it takes at least one byte and
/// no more than there are; bytes that start with the varint of a 64-bit
/// number give whether it is not zero, taking the varint's bytes.
#[verifier::external_body]
fn read_bool_field(bytes: &[u8]) -> (got: Result<Taken<bool>, protobuf::Error>)
    ensures
        got matches Ok(field) ==> takes_some_of(field.used, bytes@),
        forall|v: nat| #[trigger]
            starts_with_varint(bytes@, v, u64::MAX as nat) ==> flag_read_as(
                got,
                v != 0,
                varint(v).len(),
            ),
{
    let mut stream = protobuf::CodedInputStream::from_bytes(bytes);
    let value = stream.read_bool()?;
    Ok(Taken { value, used: stream.pos() })
}

/// Calls `protobuf::rt::WireType::new` on `wire_type` and, for a valid wire
/// type, `protobuf::CodedInputStream::skip_field` on a stream over `bytes`,
/// with `pos` for the bytes it took. Claimed: it takes no more bytes than
/// there are; a varint, a length and its data, eight bytes or four bytes,
/// by wire type 0, 2, 1 or 5, are skipped whole.
#[verifier::external_body]
fn skip_field(bytes: &[u8], wire_type: u32) -> (skipped: Result<Option<u64>, protobuf::Error>)
    ensures
        skipped matches Ok(Some(used)) ==> takes_at_most(used, bytes@),
        forall|v: nat| #[trigger]
            starts_with_varint(bytes@, v, u64::MAX as nat) ==> skip_took(
                skipped,
                wire_type,
                0,
                varint(v).len(),
            ),
        forall|data: Seq<u8>| #[trigger]
            starts_with_length_prefixed(bytes@, data) ==> skip_took(
                skipped,
                wire_type,
                2,
                length_prefixed(data).len(),
            ),
        fixed_skip(skipped, wire_type, bytes@),
{
    let mut stream = protobuf::CodedInputStream::from_bytes(bytes);
    match protobuf::rt::WireType::new(wire_type) {
        Some(wire_type) => {
            stream.skip_field(wire_type)?;
            Ok(Some(stream.pos()))
        },
        None => Ok(None),
    }
}

/// Calls `String::from_utf8`. Claimed: it succeeds exactly on valid UTF-8,
/// and gives the characters that the bytes encode.
#[verifier::external_body]
fn string_from_utf8(bytes: Vec<u8>) -> (text: Option<String>)
    ensures
        text is Some == valid_utf8(bytes@),
        text matches Some(t) ==> t@ == decode_utf8(bytes@),
{
    String::from_utf8(bytes).ok()
}

/// A known field as read.
enum Known {
    Bytes(u32, Vec<u8>),
    Flag(bool),
}

impl View for Known {
    type V = KnownField;

    closed spec fn view(&self) -> KnownField {
        match self {
            Known::Bytes(field, data) => KnownField::Bytes { field: *field as nat, data: data@ },
            Known::Flag(value) => KnownField::Flag { value: *value },
        }
    }
}

/// The known fields as read.
spec fn known_view(read: Seq<Known>) -> Seq<KnownField> {
    read.map_values(|k: Known| k@)
}

/// The content of a field as it stands after the field's tag.
proof fn lemma_field_after_tag(f: WireField, more: Seq<u8>)
    ensures
        field_wire(f) + more == varint(tag_of(field_number(f), wire_type_of(f))) + (
        match f {
            WireField::Bytes { data, .. } => length_prefixed(data) + more,
            WireField::Varint { value, .. } => varint(value) + more,
            WireField::Fixed64 { data, .. } => data + more,
            WireField::Fixed32 { data, .. } => data + more,
        }),
{
    match f {
        WireField::Bytes { field, data } => {
            assert(field_wire(f) + more =~= varint(tag_of(field, 2)) + (length_prefixed(data) + more));
        },
        WireField::Varint { field, value } => {
            assert(field_wire(f) + more =~= varint(tag_of(field, 0)) + (varint(value) + more));
        },
        WireField::Fixed64 { field, data } => {
            assert(field_wire(f) + more =~= varint(tag_of(field, 1)) + (data + more));
        },
        WireField::Fixed32 { field, data } => {
            assert(field_wire(f) + more =~= varint(tag_of(field, 5)) + (data + more));
        },
    }
}

/// Reads the fields of a message, keeping the known ones in order and
/// skipping the others; on the encoding of well-formed fields it gives
/// their known fields.
#[verifier::rlimit(100)]
fn scan_fields(bytes: &[u8], Ghost(fields): Ghost<Seq<WireField>>) -> (scanned: Option<Vec<Known>>)
    ensures
        parses_as(bytes@, fields) ==> (scanned matches Some(s) && known_view(s@) == known_of(
            fields,
        )),
{
    let ghost good = parses_as(bytes@, fields);
    let mut acc: Vec<Known> = Vec::new();
    let mut pos: usize = 0;
    let ghost mut done: int = 0;
    proof {
        assert(fields.take(0) =~= Seq::<WireField>::empty());
        assert(known_view(acc@) =~= Seq::<KnownField>::empty());
    }
    while pos < bytes.len()
        invariant
            pos <= bytes.len(),
            good == parses_as(bytes@, fields),
            good ==> (0 <= done <= fields.len() && pos == fields_wire(fields.take(done)).len()
                && known_view(acc@) == known_of(fields.take(done))),
        decreases bytes.len() - pos,
    {
        let ghost f = fields[done];
        let ghost more = fields_wire(fields.skip(done + 1));
        let ghost content = match f {
            WireField::Bytes { data, .. } => length_prefixed(data) + more,
            WireField::Varint { value, .. } => varint(value) + more,
            WireField::Fixed64 { data, .. } => data + more,
            WireField::Fixed32 { data, .. } => data + more,
        };
        let ghost t = tag_of(field_number(f), wire_type_of(f));
        proof {
            if good {
                if done == fields.len() {
                    assert(fields.take(done) =~= fields);
                }
                lemma_fields_wire_rest(fields, done);
                assert(well_formed_field(f));
                lemma_field_after_tag(f, more);
                assert(bytes@.subrange(pos as int, bytes@.len() as int) =~= varint(t) + content);
                assert(starts_with_varint(bytes@.subrange(pos as int, bytes@.len() as int), t, u32::MAX as nat));
            }
        }
        let rest = slice_subrange(bytes, pos, bytes.len());
        let tag = match read_tag(rest) {
            Ok(Some(taken)) => taken,
            Ok(None) => {
                proof {
                    if good {
                        assert(false);
                    }
                }
                return Some(acc);
            },
            Err(_) => {
                return None;
            },
        };
        let after = pos + tag.used as usize;
        let body = slice_subrange(bytes, after, bytes.len());
        let t_exec = tag.value;
        proof {
            if good {
                assert(body@ =~= content);
            }
        }
        let ghost before_acc = acc@;
        if t_exec == 10 || t_exec == 18 || t_exec == 26 {
            proof {
                if good {
                    assert(f is Bytes);
                    assert(starts_with_length_prefixed(body@, f->Bytes_data));
                }
            }
            let field: u32 = if t_exec == 10 {
                1
            } else if t_exec == 18 {
                2
            } else {
                3
            };
            match read_bytes_field(body) {
                Ok(read) => {
                    acc.push(Known::Bytes(field, read.value));
                    pos = after + read.used as usize;
                },
                Err(_) => {
                    return None;
                },
            }
        } else if t_exec == 8 {
            proof {
                if good {
                    assert(f is Varint);
                    assert(starts_with_varint(body@, f->Varint_value, u64::MAX as nat));
                }
            }
            match read_bool_field(body) {
                Ok(read) => {
                    acc.push(Known::Flag(read.value));
                    pos = after + read.used as usize;
                },
                Err(_) => {
                    return None;
                },
            }
        } else {
            assert(t_exec >> 3u32 == t_exec / 8) by (bit_vector);
            assert(t_exec & 7u32 == t_exec % 8) by (bit_vector);
            if t_exec >> 3u32 == 0 {
                proof {
                    if good {
                        assert(false);
                    }
                }
                return None;
            }
            proof {
                if good {
                    match f {
                        WireField::Bytes { data, .. } => {
                            assert(starts_with_length_prefixed(body@, data));
                        },
                        WireField::Varint { value, .. } => {
                            assert(starts_with_varint(body@, value, u64::MAX as nat));
                        },
                        _ => {},
                    }
                }
            }
            match skip_field(body, t_exec & 7u32) {
                Ok(Some(used)) => {
                    pos = after + used as usize;
                },
                _ => {
                    return None;
                },
            }
        }
        proof {
            if good {
                assert(known_view(acc@) =~= known_of(fields.take(done + 1)));
                done = done + 1;
            }
        }
    }
    proof {
        if good {
            if done < fields.len() {
                lemma_fields_wire_rest(fields, done);
                lemma_field_after_tag(fields[done], Seq::empty());
                assert(field_wire(fields[done]).len() > 0);
            }
            assert(fields.take(done) =~= fields);
        }
    }
    Some(acc)
}

/// A varint is read back whole: two varints that start equal byte strings
/// are the same, and so is what follows them.
proof fn lemma_varint_prefix(a: nat, b: nat, x: Seq<u8>, y: Seq<u8>)
    requires
        varint(a) + x == varint(b) + y,
    ensures
        a == b,
        x == y,
    decreases a,
{
    let s = varint(a) + x;
    assert(s[0] == varint(a)[0]);
    assert((varint(b) + y)[0] == varint(b)[0]);
    if a < 128 {
        if b >= 128 {
            assert(varint(b)[0] == (b % 128 + 128) as u8);
            assert(false);
        }
        assert(varint(a) =~= seq![a as u8]);
        assert(varint(b) =~= seq![b as u8]);
        assert(x =~= s.drop_first());
        assert(y =~= (varint(b) + y).drop_first());
    } else {
        if b < 128 {
            assert(varint(a)[0] == (a % 128 + 128) as u8);
            assert(false);
        }
        let ra = varint(a / 128);
        let rb = varint(b / 128);
        assert(varint(a) =~= seq![(a % 128 + 128) as u8] + ra);
        assert(varint(b) =~= seq![(b % 128 + 128) as u8] + rb);
        assert(s.drop_first() =~= ra + x);
        assert((varint(b) + y).drop_first() =~= rb + y);
        lemma_varint_prefix(a / 128, b / 128, x, y);
    }
}

/// A varint takes at least one byte.
proof fn lemma_varint_not_empty(n: nat)
    ensures
        varint(n).len() >= 1,
{
}

/// Two well-formed fields that start equal byte strings are the same, and
/// so is what follows them.
proof fn lemma_field_prefix(f1: WireField, f2: WireField, x: Seq<u8>, y: Seq<u8>)
    requires
        well_formed_field(f1),
        well_formed_field(f2),
        field_wire(f1) + x == field_wire(f2) + y,
    ensures
        f1 == f2,
        x == y,
{
    lemma_field_after_tag(f1, x);
    lemma_field_after_tag(f2, y);
    let c1 = match f1 {
        WireField::Bytes { data, .. } => length_prefixed(data) + x,
        WireField::Varint { value, .. } => varint(value) + x,
        WireField::Fixed64 { data, .. } => data + x,
        WireField::Fixed32 { data, .. } => data + x,
    };
    let c2 = match f2 {
        WireField::Bytes { data, .. } => length_prefixed(data) + y,
        WireField::Varint { value, .. } => varint(value) + y,
        WireField::Fixed64 { data, .. } => data + y,
        WireField::Fixed32 { data, .. } => data + y,
    };
    lemma_varint_prefix(
        tag_of(field_number(f1), wire_type_of(f1)),
        tag_of(field_number(f2), wire_type_of(f2)),
        c1,
        c2,
    );
    assert(field_number(f1) == field_number(f2));
    assert(wire_type_of(f1) == wire_type_of(f2));
    match f1 {
        WireField::Bytes { data: d1, .. } => {
            let d2 = f2->Bytes_data;
            assert(c1 =~= varint(d1.len()) + (d1 + x));
            assert(c2 =~= varint(d2.len()) + (d2 + y));
            lemma_varint_prefix(d1.len(), d2.len(), d1 + x, d2 + y);
            assert(d1 =~= (d1 + x).take(d1.len() as int));
            assert(d2 =~= (d2 + y).take(d2.len() as int));
            assert(x =~= (d1 + x).skip(d1.len() as int));
            assert(y =~= (d2 + y).skip(d2.len() as int));
        },
        WireField::Varint { value: v1, .. } => {
            lemma_varint_prefix(v1, f2->Varint_value, x, y);
        },
        WireField::Fixed64 { data: d1, .. } => {
            let d2 = f2->Fixed64_data;
            assert(d1 =~= c1.take(8));
            assert(d2 =~= c2.take(8));
            assert(x =~= c1.skip(8));
            assert(y =~= c2.skip(8));
        },
        WireField::Fixed32 { data: d1, .. } => {
            let d2 = f2->Fixed32_data;
            assert(d1 =~= c1.take(4));
            assert(d2 =~= c2.take(4));
            assert(x =~= c1.skip(4));
            assert(y =~= c2.skip(4));
        },
    }
}

/// Messages are read back whole: equal encodings come from the same
/// well-formed fields.
proof fn lemma_fields_unique(fs1: Seq<WireField>, fs2: Seq<WireField>)
    requires
        well_formed_fields(fs1),
        well_formed_fields(fs2),
        fields_wire(fs1) == fields_wire(fs2),
    ensures
        fs1 == fs2,
    decreases fs1.len(),
{
    assert(fs1.take(0) =~= Seq::<WireField>::empty());
    assert(fs2.take(0) =~= Seq::<WireField>::empty());
    if fs1.len() > 0 {
        lemma_fields_wire_rest(fs1, 0);
        lemma_field_after_tag(fs1[0], Seq::empty());
        lemma_varint_not_empty(tag_of(field_number(fs1[0]), wire_type_of(fs1[0])));
        assert(well_formed_field(fs1[0]));
    }
    if fs2.len() > 0 {
        lemma_fields_wire_rest(fs2, 0);
        lemma_field_after_tag(fs2[0], Seq::empty());
        lemma_varint_not_empty(tag_of(field_number(fs2[0]), wire_type_of(fs2[0])));
        assert(well_formed_field(fs2[0]));
    }
    if fs1.len() == 0 || fs2.len() == 0 {
        assert(fs1 =~= fs2);
    } else {
        assert(fields_wire(fs1) =~= field_wire(fs1[0]) + fields_wire(fs1.skip(1)));
        assert(fields_wire(fs2) =~= field_wire(fs2[0]) + fields_wire(fs2.skip(1)));
        lemma_field_prefix(fs1[0], fs2[0], fields_wire(fs1.skip(1)), fields_wire(fs2.skip(1)));
        assert(well_formed_fields(fs1.skip(1)));
        assert(well_formed_fields(fs2.skip(1)));
        lemma_fields_unique(fs1.skip(1), fs2.skip(1));
        assert(fs1 =~= seq![fs1[0]] + fs1.skip(1));
        assert(fs2 =~= seq![fs2[0]] + fs2.skip(1));
    }
}

/// The fields of bytes that encode well-formed fields are those fields.
proof fn lemma_message_fields(bytes: Seq<u8>, fields: Seq<WireField>)
    requires
        parses_as(bytes, fields),
    ensures
        is_message(bytes),
        message_fields(bytes) == fields,
        message_known(bytes) == known_of(fields),
{
    lemma_fields_unique(message_fields(bytes), fields);
}

/// Fields 1 and 2 with the given data, each left out when empty.
pub open spec fn pair_fields(one: Seq<u8>, two: Seq<u8>) -> Seq<WireField> {
    (if one.len() == 0 {
        Seq::empty()
    } else {
        seq![WireField::Bytes { field: 1, data: one }]
    }) + (if two.len() == 0 {
        Seq::empty()
    } else {
        seq![WireField::Bytes { field: 2, data: two }]
    })
}

/// Fields 1 and 2, each left out when empty, are a message with those known
/// fields.
proof fn lemma_pair_fields(one: Seq<u8>, two: Seq<u8>)
    requires
        one.len() <= u32::MAX,
        two.len() <= u32::MAX,
    ensures
        parses_as(opt_ld_field(1, one) + opt_ld_field(2, two), pair_fields(one, two)),
        known_of(pair_fields(one, two)) == (if one.len() == 0 {
            Seq::<KnownField>::empty()
        } else {
            seq![KnownField::Bytes { field: 1, data: one }]
        }) + (if two.len() == 0 {
            Seq::<KnownField>::empty()
        } else {
            seq![KnownField::Bytes { field: 2, data: two }]
        }),
{
    let fields = pair_fields(one, two);
    let f1 = WireField::Bytes { field: 1, data: one };
    let f2 = WireField::Bytes { field: 2, data: two };
    let k1 = KnownField::Bytes { field: 1, data: one };
    let k2 = KnownField::Bytes { field: 2, data: two };
    reveal_with_fuel(known_of, 3);
    reveal_with_fuel(fields_wire, 3);
    lemma_varint_len(10);
    lemma_varint_len(18);
    if one.len() == 0 && two.len() == 0 {
        assert(fields =~= Seq::<WireField>::empty());
        assert(opt_ld_field(1, one) + opt_ld_field(2, two) =~= Seq::<u8>::empty());
    } else if one.len() == 0 {
        assert(fields =~= seq![f2]);
        assert(seq![f2].drop_last() =~= Seq::<WireField>::empty());
        assert(opt_ld_field(1, one) + opt_ld_field(2, two) =~= ld_field(2, two));
        assert(fields_wire(fields) =~= ld_field(2, two));
        assert(known_of(fields) =~= seq![k2]);
    } else if two.len() == 0 {
        assert(fields =~= seq![f1]);
        assert(seq![f1].drop_last() =~= Seq::<WireField>::empty());
        assert(opt_ld_field(1, one) + opt_ld_field(2, two) =~= ld_field(1, one));
        assert(fields_wire(fields) =~= ld_field(1, one));
        assert(known_of(fields) =~= seq![k1]);
    } else {
        assert(fields =~= seq![f1, f2]);
        assert(seq![f1, f2].drop_last() =~= seq![f1]);
        assert(seq![f1].drop_last() =~= Seq::<WireField>::empty());
        assert(fields_wire(fields) =~= ld_field(1, one) + ld_field(2, two));
        assert(known_of(fields) =~= seq![k1, k2]);
    }
    assert(well_formed_fields(fields));
}

/// A single field is a message of that one field.
proof fn lemma_single_field(f: WireField)
    requires
        well_formed_field(f),
    ensures
        parses_as(field_wire(f), seq![f]),
{
    lemma_fields_wire_single(f);
}

/// The data of the last known field `field`, if there is one.
pub open spec fn last_bytes(known: Seq<KnownField>, field: nat) -> Option<Seq<u8>>
    decreases known.len(),
{
    if known.len() == 0 {
        None
    } else {
        match known.last() {
            KnownField::Bytes { field: f, data } => if f == field {
                Some(data)
            } else {
                last_bytes(known.drop_last(), field)
            },
            KnownField::Flag { .. } => last_bytes(known.drop_last(), field),
        }
    }
}

/// The data of the last known field `field`, or nothing.
pub open spec fn bytes_or_empty(known: Seq<KnownField>, field: nat) -> Seq<u8> {
    match last_bytes(known, field) {
        Some(data) => data,
        None => Seq::empty(),
    }
}

/// Whether a known field, when it is field `field`, holds valid UTF-8.
pub open spec fn text_ok(k: KnownField, field: nat) -> bool {
    match k {
        KnownField::Bytes { field: f, data } => f == field ==> valid_utf8(data),
        KnownField::Flag { .. } => true,
    }
}

/// Whether every occurrence of string field `field` holds valid UTF-8.
pub open spec fn all_text(known: Seq<KnownField>, field: nat) -> bool {
    forall|i: int| 0 <= i < known.len() ==> #[trigger] text_ok(known[i], field)
}

/// The text of the last string field `field`, or the empty text.
pub open spec fn text_of(known: Seq<KnownField>, field: nat) -> Seq<char> {
    decode_utf8(bytes_or_empty(known, field))
}

/// The value of the last flag, if there is one.
pub open spec fn last_flag(known: Seq<KnownField>) -> Option<bool>
    decreases known.len(),
{
    if known.len() == 0 {
        None
    } else {
        match known.last() {
            KnownField::Flag { value } => Some(value),
            KnownField::Bytes { .. } => last_flag(known.drop_last()),
        }
    }
}

/// The command that a command message carried as field `field` of a
/// request stands for: `None` when a key is not valid UTF-8.
pub open spec fn command_of(field: nat, body: Seq<u8>) -> Option<ActionModel> {
    let known = message_known(body);
    if !all_text(known, 1) {
        None
    } else {
        let key = text_of(known, 1);
        if field == 1 {
            Some(ActionModel::Get { key })
        } else if field == 2 {
            Some(ActionModel::Put { key, value: bytes_or_empty(known, 2) })
        } else {
            Some(ActionModel::Delete { key })
        }
    }
}

/// Whether a known field of a request, a command message, is a message.
pub open spec fn body_is_message(k: KnownField) -> bool {
    match k {
        KnownField::Bytes { data, .. } => is_message(data),
        KnownField::Flag { .. } => true,
    }
}

/// Whether a known field of a request, a command message, stands for a
/// command.
pub open spec fn command_ok(k: KnownField) -> bool {
    match k {
        KnownField::Bytes { field, data } => command_of(field, data) is Some,
        KnownField::Flag { .. } => true,
    }
}

/// The command of the last command message among the known fields.
pub open spec fn last_command(known: Seq<KnownField>) -> Option<ActionModel>
    decreases known.len(),
{
    if known.len() == 0 {
        None
    } else {
        match known.last() {
            KnownField::Bytes { field, data } => command_of(field, data),
            KnownField::Flag { .. } => last_command(known.drop_last()),
        }
    }
}

/// What a request message stands for: `None` when one of its command
/// messages has a key that is not UTF-8, otherwise its last command, if it
/// has one.
pub open spec fn request_model(bytes: Seq<u8>) -> Option<Option<ActionModel>> {
    let known = message_known(bytes);
    if forall|i: int| 0 <= i < known.len() ==> #[trigger] command_ok(known[i]) {
        Some(last_command(known))
    } else {
        None
    }
}

/// A decoded request, as the caller sees it.
pub open spec fn request_view(request: Option<Request>) -> Option<Option<ActionModel>> {
    match request {
        None => None,
        Some(r) => Some(
            match r.command {
                None => None,
                Some(c) => Some(c@),
            },
        ),
    }
}

/// Whether a decoded request carries the action.
pub open spec fn request_reads_as(request: Option<Request>, action: ActionModel) -> bool {
    request_view(request) == Some(Some(action))
}

/// The empty text is the decoding of no bytes.
proof fn lemma_decode_empty()
    ensures
        valid_utf8(Seq::<u8>::empty()),
        decode_utf8(Seq::<u8>::empty()) == Seq::<char>::empty(),
{
    assert(encode_utf8(Seq::<char>::empty()) =~= Seq::<u8>::empty());
}

/// Decodes a command message carried as field `field` of a request.
fn decode_command(field: u32, body: &[u8]) -> (command: Option<Command>)
    ensures
        1 <= field <= 3 && is_message(body@) ==> match command {
            None => command_of(field as nat, body@) is None,
            Some(c) => command_of(field as nat, body@) == Some(c@),
        },
{
    let ghost good = 1 <= field <= 3 && is_message(body@);
    let known = match scan_fields(body, Ghost(message_fields(body@))) {
        Some(known) => known,
        None => {
            return None;
        },
    };
    let ghost kv = known_view(known@);
    let mut key = String::new();
    let mut value: Vec<u8> = Vec::new();
    let mut i: usize = 0;
    proof {
        lemma_decode_empty();
        assert(kv.take(0) =~= Seq::<KnownField>::empty());
    }
    while i < known.len()
        invariant
            i <= known.len(),
            kv == known_view(known@),
            good == (1 <= field <= 3 && is_message(body@)),
            good ==> kv == message_known(body@),
            good ==> all_text(kv.take(i as int), 1),
            good ==> key@ == text_of(kv.take(i as int), 1),
            good ==> value@ == bytes_or_empty(kv.take(i as int), 2),
        decreases known.len() - i,
    {
        let ghost k = kv[i as int];
        assert(kv.take(i + 1).drop_last() =~= kv.take(i as int));
        assert(kv.take(i + 1).last() == k);
        assert(known@[i as int]@ == k);
        match &known[i] {
            Known::Bytes(f, data) => {
                if *f == 1 {
                    let copy = data.clone();
                    assert(copy@ =~= data@);
                    match string_from_utf8(copy) {
                        Some(text) => {
                            key = text;
                        },
                        None => {
                            proof {
                                if good {
                                    assert(!text_ok(k, 1));
                                }
                            }
                            return None;
                        },
                    }
                } else if *f == 2 {
                    value = data.clone();
                    assert(value@ =~= data@);
                }
            },
            Known::Flag(_) => {},
        }
        proof {
            if good {
                assert forall|j: int| 0 <= j < i + 1 implies #[trigger] text_ok(
                    kv.take(i + 1)[j],
                    1,
                ) by {
                    if j < i {
                        assert(kv.take(i + 1)[j] == kv.take(i as int)[j]);
                    }
                }
            }
        }
        i = i + 1;
    }
    proof {
        assert(kv.take(i as int) =~= kv);
    }
    if field == 1 {
        Some(Command::Get(GetRequest { key }))
    } else if field == 2 {
        Some(Command::Put(SetRequest { key, value }))
    } else {
        Some(Command::Delete(DeleteRequest { key }))
    }
}

/// Decodes a request. On a message whose command messages are messages, it
/// gives what the message stands for; every request that `encode_request`
/// writes is read back as the action it carries.
pub fn decode_request(bytes: &[u8]) -> (request: Option<Request>)
    ensures
        is_message(bytes@) && (forall|i: int|
            0 <= i < message_known(bytes@).len() ==> #[trigger] body_is_message(
                message_known(bytes@)[i],
            )) ==> request_view(request) == request_model(bytes@),
        forall|action: ActionModel|
            #[trigger] request_wire(action) == bytes@ && request_wire(action).len()
                <= MAX_MESSAGE_SIZE ==> request_reads_as(request, action),
{
    let ghost good = is_message(bytes@) && (forall|i: int|
        0 <= i < message_known(bytes@).len() ==> #[trigger] body_is_message(
            message_known(bytes@)[i],
        ));
    let known = match scan_fields(bytes, Ghost(message_fields(bytes@))) {
        Some(known) => known,
        None => {
            proof {
                lemma_request_read_back_is_model(bytes@);
            }
            return None;
        },
    };
    let ghost kv = known_view(known@);
    let mut command: Option<Command> = None;
    let mut i: usize = 0;
    proof {
        assert(kv.take(0) =~= Seq::<KnownField>::empty());
    }
    while i < known.len()
        invariant
            i <= known.len(),
            kv == known_view(known@),
            good == (is_message(bytes@) && (forall|i: int|
                0 <= i < message_known(bytes@).len() ==> #[trigger] body_is_message(
                    message_known(bytes@)[i],
                ))),
            good ==> kv == message_known(bytes@),
            good ==> forall|j: int| 0 <= j < i ==> #[trigger] command_ok(kv[j]),
            good ==> match command {
                None => last_command(kv.take(i as int)) is None,
                Some(c) => last_command(kv.take(i as int)) == Some(c@),
            },
        decreases known.len() - i,
    {
        let ghost k = kv[i as int];
        assert(kv.take(i + 1).drop_last() =~= kv.take(i as int));
        assert(kv.take(i + 1).last() == k);
        assert(known@[i as int]@ == k);
        match &known[i] {
            Known::Bytes(f, data) => {
                proof {
                    if good {
                        assert(body_is_message(k));
                        lemma_known_in_range(message_fields(bytes@));
                        assert(bytes_field_in_range(k));
                    }
                }
                match decode_command(*f, data.as_slice()) {
                    Some(c) => {
                        command = Some(c);
                    },
                    None => {
                        proof {
                            if good {
                                assert(!command_ok(k));
                            }
                            lemma_request_read_back_is_model(bytes@);
                        }
                        return None;
                    },
                }
            },
            Known::Flag(_) => {},
        }
        i = i + 1;
    }
    proof {
        assert(kv.take(i as int) =~= kv);
    }
    let request = Some(Request { command });
    proof {
        lemma_request_read_back_is_model(bytes@);
    }
    request
}

/// Whether a known field that carries bytes has number 1, 2 or 3.
pub open spec fn bytes_field_in_range(k: KnownField) -> bool {
    match k {
        KnownField::Bytes { field, .. } => 1 <= field <= 3,
        KnownField::Flag { .. } => true,
    }
}

/// The known fields carry bytes only for fields 1, 2 and 3.
proof fn lemma_known_in_range(fields: Seq<WireField>)
    ensures
        forall|i: int|
            0 <= i < known_of(fields).len() ==> #[trigger] bytes_field_in_range(known_of(fields)[i]),
    decreases fields.len(),
{
    if fields.len() > 0 {
        lemma_known_in_range(fields.drop_last());
        let before = known_of(fields.drop_last());
        let after = known_of(fields);
        assert(after.len() == before.len() || after.len() == before.len() + 1);
        assert forall|i: int| 0 <= i < after.len() implies #[trigger] bytes_field_in_range(
            after[i],
        ) by {
            if i < before.len() {
                assert(after[i] == before[i]);
            }
        }
    }
}

/// The command message of an action is its key and value as fields 1 and 2,
/// within 32-bit lengths, and the request is a single well-formed field.
proof fn lemma_command_fields(action: ActionModel)
    requires
        request_wire(action).len() <= MAX_MESSAGE_SIZE,
    ensures
        action_key_bytes(action).len() <= u32::MAX,
        action_value(action).len() <= u32::MAX,
        command_wire(action) == opt_ld_field(1, action_key_bytes(action)) + opt_ld_field(
            2,
            action_value(action),
        ),
        well_formed_field(WireField::Bytes { field: command_field(action), data: command_wire(action) }),
        field_wire(WireField::Bytes { field: command_field(action), data: command_wire(action) })
            == request_wire(action),
{
    let k = action_key_bytes(action);
    let v = action_value(action);
    assert(opt_ld_field(2, Seq::<u8>::empty()) =~= Seq::<u8>::empty());
    assert(command_wire(action) =~= opt_ld_field(1, k) + opt_ld_field(2, v));
}

/// A request written for an action is a message whose one known field is
/// the command message, and that message stands for the action.
proof fn lemma_request_read_back_is_model(bytes: Seq<u8>)
    ensures
        forall|action: ActionModel|
            #[trigger] request_wire(action) == bytes && request_wire(action).len()
                <= MAX_MESSAGE_SIZE ==> {
                &&& is_message(bytes)
                &&& forall|i: int|
                    0 <= i < message_known(bytes).len() ==> #[trigger] body_is_message(
                        message_known(bytes)[i],
                    )
                &&& request_model(bytes) == Some(Some(action))
            },
{
    assert forall|action: ActionModel|
        #[trigger] request_wire(action) == bytes && request_wire(action).len()
            <= MAX_MESSAGE_SIZE implies {
        &&& is_message(bytes)
        &&& forall|i: int|
            0 <= i < message_known(bytes).len() ==> #[trigger] body_is_message(
                message_known(bytes)[i],
            )
        &&& request_model(bytes) == Some(Some(action))
    } by {
        lemma_command_fields(action);
        let cf = command_field(action);
        let cw = command_wire(action);
        let kb = action_key_bytes(action);
        let v = action_value(action);
        let f = WireField::Bytes { field: cf, data: cw };
        lemma_single_field(f);
        lemma_message_fields(bytes, seq![f]);
        reveal_with_fuel(known_of, 2);
        assert(seq![f].drop_last() =~= Seq::<WireField>::empty());
        let entry = KnownField::Bytes { field: cf, data: cw };
        assert(message_known(bytes) =~= seq![entry]);
        lemma_pair_fields(kb, v);
        lemma_message_fields(cw, pair_fields(kb, v));
        let inner = message_known(cw);
        lemma_decode_empty();
        reveal_with_fuel(last_bytes, 3);
        let k1 = KnownField::Bytes { field: 1, data: kb };
        let k2 = KnownField::Bytes { field: 2, data: v };
        if kb.len() > 0 && v.len() > 0 {
            assert(inner =~= seq![k1, k2]);
            assert(inner.drop_last() =~= seq![k1]);
            assert(seq![k1].drop_last() =~= Seq::<KnownField>::empty());
        } else if kb.len() > 0 {
            assert(inner =~= seq![k1]);
            assert(seq![k1].drop_last() =~= Seq::<KnownField>::empty());
        } else if v.len() > 0 {
            assert(inner =~= seq![k2]);
            assert(seq![k2].drop_last() =~= Seq::<KnownField>::empty());
        } else {
            assert(inner =~= Seq::<KnownField>::empty());
        }
        assert(all_text(inner, 1));
        assert(bytes_or_empty(inner, 1) == kb) by {
            if kb.len() == 0 {
                assert(kb =~= Seq::<u8>::empty());
            }
        }
        assert(text_of(inner, 1) == action_key(action));
        assert(bytes_or_empty(inner, 2) == v) by {
            if v.len() == 0 {
                assert(v =~= Seq::<u8>::empty());
            }
        }
        assert(command_of(cf, cw) == Some(action));
        reveal_with_fuel(last_command, 2);
        assert(seq![entry].drop_last() =~= Seq::<KnownField>::empty());
        assert(command_ok(message_known(bytes)[0]));
        assert(body_is_message(message_known(bytes)[0]));
    }
}

/// What a get reply message stands for: `None` when an error field is not
/// UTF-8, otherwise its last value and its last error.
pub open spec fn get_reply_model(bytes: Seq<u8>) -> Option<(Seq<u8>, Seq<char>)> {
    let known = message_known(bytes);
    if all_text(known, 2) {
        Some((bytes_or_empty(known, 1), text_of(known, 2)))
    } else {
        None
    }
}

/// A decoded get reply, as the caller sees it.
pub open spec fn get_reply_view(reply: Option<GetReply>) -> Option<(Seq<u8>, Seq<char>)> {
    match reply {
        None => None,
        Some(r) => Some((r.value@, r.err@)),
    }
}

/// A get reply written for a value and an error is the message of those two
/// fields, and stands for them.
proof fn lemma_get_reply_read_back(bytes: Seq<u8>)
    ensures
        forall|value: Seq<u8>, err: Seq<char>|
            #[trigger] reply_wire(ReplyModel::Get { value, err }) == bytes && bytes.len()
                <= MAX_MESSAGE_SIZE ==> is_message(bytes) && get_reply_model(bytes) == Some(
                (value, err),
            ),
{
    assert forall|value: Seq<u8>, err: Seq<char>|
        #[trigger] reply_wire(ReplyModel::Get { value, err }) == bytes && bytes.len()
            <= MAX_MESSAGE_SIZE implies is_message(bytes) && get_reply_model(bytes) == Some(
        (value, err),
    ) by {
        let e = encode_utf8(err);
        assert(opt_ld_field(1, value).len() <= bytes.len());
        assert(opt_ld_field(2, e).len() <= bytes.len());
        lemma_pair_fields(value, e);
        lemma_message_fields(bytes, pair_fields(value, e));
        let known = message_known(bytes);
        lemma_decode_empty();
        reveal_with_fuel(last_bytes, 3);
        let k1 = KnownField::Bytes { field: 1, data: value };
        let k2 = KnownField::Bytes { field: 2, data: e };
        if value.len() > 0 && e.len() > 0 {
            assert(known =~= seq![k1, k2]);
            assert(known.drop_last() =~= seq![k1]);
            assert(seq![k1].drop_last() =~= Seq::<KnownField>::empty());
        } else if value.len() > 0 {
            assert(known =~= seq![k1]);
            assert(seq![k1].drop_last() =~= Seq::<KnownField>::empty());
        } else if e.len() > 0 {
            assert(known =~= seq![k2]);
            assert(seq![k2].drop_last() =~= Seq::<KnownField>::empty());
        } else {
            assert(known =~= Seq::<KnownField>::empty());
        }
        assert(all_text(known, 2));
        assert(bytes_or_empty(known, 1) == value) by {
            if value.len() == 0 {
                assert(value =~= Seq::<u8>::empty());
            }
        }
        assert(bytes_or_empty(known, 2) == e) by {
            if e.len() == 0 {
                assert(e =~= Seq::<u8>::empty());
            }
        }
    }
}

/// Decodes a get reply. On a message it gives what the message stands for;
/// every get reply that `encode_reply` writes is read back as itself.
pub fn decode_get_reply(bytes: &[u8]) -> (reply: Option<GetReply>)
    ensures
        is_message(bytes@) ==> get_reply_view(reply) == get_reply_model(bytes@),
        forall|value: Seq<u8>, err: Seq<char>|
            #[trigger] reply_wire(ReplyModel::Get { value, err }) == bytes@ && bytes@.len()
                <= MAX_MESSAGE_SIZE ==> get_reply_view(reply) == Some((value, err)),
{
    let ghost good = is_message(bytes@);
    proof {
        lemma_get_reply_read_back(bytes@);
    }
    let known = match scan_fields(bytes, Ghost(message_fields(bytes@))) {
        Some(known) => known,
        None => {
            return None;
        },
    };
    let ghost kv = known_view(known@);
    let mut value: Vec<u8> = Vec::new();
    let mut err = String::new();
    let mut i: usize = 0;
    proof {
        lemma_decode_empty();
        assert(kv.take(0) =~= Seq::<KnownField>::empty());
    }
    while i < known.len()
        invariant
            i <= known.len(),
            kv == known_view(known@),
            good == is_message(bytes@),
            good ==> kv == message_known(bytes@),
            good ==> all_text(kv.take(i as int), 2),
            good ==> value@ == bytes_or_empty(kv.take(i as int), 1),
            good ==> err@ == text_of(kv.take(i as int), 2),
        decreases known.len() - i,
    {
        let ghost k = kv[i as int];
        assert(kv.take(i + 1).drop_last() =~= kv.take(i as int));
        assert(kv.take(i + 1).last() == k);
        assert(known@[i as int]@ == k);
        match &known[i] {
            Known::Bytes(f, data) => {
                if *f == 1 {
                    value = data.clone();
                    assert(value@ =~= data@);
                } else if *f == 2 {
                    let copy = data.clone();
                    assert(copy@ =~= data@);
                    match string_from_utf8(copy) {
                        Some(text) => {
                            err = text;
                        },
                        None => {
                            proof {
                                assert forall|v: Seq<u8>, e: Seq<char>|
                                    #[trigger] reply_wire(ReplyModel::Get { value: v, err: e })
                                        == bytes@ && bytes@.len() <= MAX_MESSAGE_SIZE implies false by {
                                    lemma_get_reply_read_back(bytes@);
                                    assert(is_message(bytes@));
                                    assert(!text_ok(kv[i as int], 2));
                                    assert(!all_text(message_known(bytes@), 2));
                                }
                                if good {
                                    assert(!text_ok(kv[i as int], 2));
                                    assert(!all_text(message_known(bytes@), 2));
                                }
                            }
                            return None;
                        },
                    }
                }
            },
            Known::Flag(_) => {},
        }
        proof {
            if good {
                assert forall|j: int| 0 <= j < i + 1 implies #[trigger] text_ok(
                    kv.take(i + 1)[j],
                    2,
                ) by {
                    if j < i {
                        assert(kv.take(i + 1)[j] == kv.take(i as int)[j]);
                    }
                }
            }
        }
        i = i + 1;
    }
    proof {
        assert(kv.take(i as int) =~= kv);
    }
    Some(GetReply { value, err })
}

/// What a set or delete reply message stands for: its last status, false
/// when it has none.
pub open spec fn status_model(bytes: Seq<u8>) -> bool {
    match last_flag(message_known(bytes)) {
        Some(value) => value,
        None => false,
    }
}

/// A set reply and a delete reply with the same status are written alike.
pub proof fn lemma_status_replies_alike(status: bool)
    ensures
        reply_wire(ReplyModel::Delete { status }) == reply_wire(ReplyModel::Put { status }),
{
}

/// Decodes the status of a set or delete reply. On a message it gives what
/// the message stands for; every such reply that `encode_reply` writes is
/// read back as its status.
pub fn decode_status(bytes: &[u8]) -> (status: Option<bool>)
    ensures
        is_message(bytes@) ==> status == Some(status_model(bytes@)),
        bytes@ == reply_wire(ReplyModel::Put { status: true }) ==> status == Some(true),
        bytes@ == reply_wire(ReplyModel::Put { status: false }) ==> status == Some(false),
{
    let ghost good = is_message(bytes@);
    proof {
        let flag = WireField::Varint { field: 1, value: 1 };
        lemma_varint_len(8);
        lemma_varint_len(1);
        if bytes@ == reply_wire(ReplyModel::Put { status: true }) {
            assert(field_wire(flag) =~= bytes@);
            lemma_single_field(flag);
            lemma_message_fields(bytes@, seq![flag]);
            reveal_with_fuel(known_of, 2);
            reveal_with_fuel(last_flag, 2);
            assert(seq![flag].drop_last() =~= Seq::<WireField>::empty());
            assert(message_known(bytes@) =~= seq![KnownField::Flag { value: true }]);
            assert(seq![KnownField::Flag { value: true }].drop_last() =~= Seq::<KnownField>::empty());
        }
        if bytes@ == reply_wire(ReplyModel::Put { status: false }) {
            assert(fields_wire(Seq::<WireField>::empty()) =~= bytes@);
            lemma_message_fields(bytes@, Seq::<WireField>::empty());
        }
    }
    let known = match scan_fields(bytes, Ghost(message_fields(bytes@))) {
        Some(known) => known,
        None => {
            return None;
        },
    };
    let ghost kv = known_view(known@);
    let mut flag: Option<bool> = None;
    let mut i: usize = 0;
    proof {
        assert(kv.take(0) =~= Seq::<KnownField>::empty());
    }
    while i < known.len()
        invariant
            i <= known.len(),
            kv == known_view(known@),
            good == is_message(bytes@),
            good ==> kv == message_known(bytes@),
            good ==> flag == last_flag(kv.take(i as int)),
        decreases known.len() - i,
    {
        let ghost k = kv[i as int];
        assert(kv.take(i + 1).drop_last() =~= kv.take(i as int));
        assert(kv.take(i + 1).last() == k);
        assert(known@[i as int]@ == k);
        match &known[i] {
            Known::Flag(value) => {
                flag = Some(*value);
            },
            Known::Bytes(_, _) => {},
        }
        i = i + 1;
    }
    proof {
        assert(kv.take(i as int) =~= kv);
    }
    match flag {
        Some(value) => Some(value),
        None => Some(false),
    }
}

} // verus!
