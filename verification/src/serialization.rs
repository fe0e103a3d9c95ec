use vstd::prelude::*;

use vstd::bytes::{
    lemma_auto_spec_u64_to_from_le_bytes, spec_u64_from_le_bytes, spec_u64_to_le_bytes,
    u64_from_le_bytes, u64_to_le_bytes,
};
use vstd::slice::slice_subrange;

use crate::errors::Error;

verus! {

/// Width of the little-endian length prefix in front of every record.
pub const STRUCT_LEN_BYTES: usize = 3;

/// Width of the fixed record payload: key (8) + value tag (1) + value (8) + valid flag (1).
pub const RECORD_PAYLOAD_LEN: usize = 18;

/// Width of a full serialized record: length prefix plus payload.
pub const SERIALIZED_RECORD_LEN: usize = 21;

/// Largest length that fits in the 3-byte prefix.
pub const MAX_PREFIX_LENGTH: u64 = 0xFFFFFF;

/// One key/value entry as held in memory and on disk.
///
/// `valid` distinguishes a real record from the zero-filled tail of a
/// preallocated file and is true for every record the engine builds; a record
/// with `value == None` is a tombstone.
#[derive(Clone, Copy)]
pub struct KVMemoryRepr {
    pub key: u64,
    /// Holds the value, or `None` for a tombstone.
    pub value: Option<u64>,
    /// Distinguishes a decoded record from empty space; always true for
    /// records produced by `new`.
    pub valid: bool,
}

impl KVMemoryRepr {
    pub fn new(key: u64, value: Option<u64>) -> (r: Self)
        ensures
            r.key == key,
            r.value == value,
            r.valid,
    {
        Self { key, value, valid: true }
    }

    pub fn key(&self) -> (r: &u64)
        ensures
            *r == self.key,
    {
        &self.key
    }

    pub fn value(&self) -> (r: &Option<u64>)
        ensures
            *r == self.value,
    {
        &self.value
    }
}

/// Reasons a record cannot be encoded or decoded.
#[derive(Debug, PartialEq, Eq, Structural)]
pub enum SerializationError {
    SerializingStruct,
    BufferTooSmall,
    InvalidLength,
    DecodeFailed,
}

/// The payload word stored for a record's value: the value itself, or zero
/// under a tombstone tag.
pub open spec fn spec_value_word(r: KVMemoryRepr) -> u64 {
    match r.value {
        Some(v) => v,
        None => 0,
    }
}

pub open spec fn spec_tag_byte(r: KVMemoryRepr) -> u8 {
    if r.value is Some {
        1
    } else {
        0
    }
}

pub open spec fn spec_valid_byte(r: KVMemoryRepr) -> u8 {
    if r.valid {
        1
    } else {
        0
    }
}

/// The 18 payload bytes of a record: key, value tag, value word, valid flag.
pub open spec fn spec_payload(r: KVMemoryRepr) -> Seq<u8> {
    spec_u64_to_le_bytes(r.key) + seq![spec_tag_byte(r)]
        + spec_u64_to_le_bytes(spec_value_word(r)) + seq![spec_valid_byte(r)]
}

/// A full serialized record: 3-byte little-endian length prefix (always 18)
/// followed by the payload.
pub open spec fn spec_serialized_record(r: KVMemoryRepr) -> Seq<u8> {
    seq![18u8, 0u8, 0u8] + spec_payload(r)
}

/// The length encoded by a 3-byte little-endian prefix.
pub open spec fn spec_len_prefix(b: Seq<u8>) -> int
    recommends
        b.len() >= 3,
{
    b[0] + 256 * (b[1] as int) + 65536 * (b[2] as int)
}

/// The record encoded at the front of `b`, or `None` if `b` does not start
/// with a well-formed record.
pub open spec fn spec_decode_one(b: Seq<u8>) -> Option<KVMemoryRepr> {
    if b.len() < 3 {
        None
    } else {
        let l = spec_len_prefix(b);
        if l == 0 || b.len() < 3 + l || l != RECORD_PAYLOAD_LEN {
            None
        } else {
            let tag = b[11];
            let vb = b[20];
            if (tag == 0 || tag == 1) && (vb == 0 || vb == 1) {
                Some(
                    KVMemoryRepr {
                        key: spec_u64_from_le_bytes(b.subrange(3, 11)),
                        value: if tag == 1 {
                            Some(spec_u64_from_le_bytes(b.subrange(12, 20)))
                        } else {
                            None
                        },
                        valid: vb == 1,
                    },
                )
            } else {
                None
            }
        }
    }
}

pub open spec fn all_zeros(b: Seq<u8>) -> bool {
    forall|i: int| 0 <= i < b.len() ==> b[i] == 0
}

/// The records held by a byte buffer: decode records from the front until the
/// buffer is exhausted, skipping records whose valid flag is clear; a decode
/// failure is tolerated only when the remaining bytes are all zero (the empty
/// tail of a preallocated file), otherwise the buffer is malformed (`None`).
pub open spec fn spec_scan(b: Seq<u8>) -> Option<Seq<KVMemoryRepr>>
    decreases b.len(),
{
    if b.len() == 0 {
        Some(Seq::empty())
    } else if b.len() >= SERIALIZED_RECORD_LEN && spec_decode_one(b) is Some {
        let r = spec_decode_one(b)->Some_0;
        match spec_scan(b.skip(SERIALIZED_RECORD_LEN as int)) {
            Some(s) => Some(
                if r.valid {
                    seq![r] + s
                } else {
                    s
                },
            ),
            None => None,
        }
    } else if all_zeros(b) {
        Some(Seq::empty())
    } else {
        None
    }
}

/// The concatenation of the serialized forms of a sequence of records.
pub open spec fn records_bytes(rs: Seq<KVMemoryRepr>) -> Seq<u8>
    decreases rs.len(),
{
    if rs.len() == 0 {
        Seq::empty()
    } else {
        spec_serialized_record(rs[0]) + records_bytes(rs.skip(1))
    }
}

pub proof fn lemma_serialized_record_len(r: KVMemoryRepr)
    ensures
        spec_serialized_record(r).len() == SERIALIZED_RECORD_LEN,
{
    lemma_auto_spec_u64_to_from_le_bytes();
}

/// Decoding the front of a serialized record recovers the record, whatever
/// bytes follow it.
pub proof fn lemma_decode_serialized(r: KVMemoryRepr, tail: Seq<u8>)
    ensures
        spec_decode_one(spec_serialized_record(r) + tail) == Some(r),
        (spec_serialized_record(r) + tail).skip(SERIALIZED_RECORD_LEN as int) == tail,
{
    lemma_auto_spec_u64_to_from_le_bytes();
    let b = spec_serialized_record(r) + tail;
    assert(b[0] == 18 && b[1] == 0 && b[2] == 0);
    assert(spec_len_prefix(b) == 18);
    assert(b.subrange(3, 11) =~= spec_u64_to_le_bytes(r.key));
    assert(b[11] == spec_tag_byte(r));
    assert(b.subrange(12, 20) =~= spec_u64_to_le_bytes(spec_value_word(r)));
    assert(b[20] == spec_valid_byte(r));
    let decoded = spec_decode_one(b)->Some_0;
    assert(decoded.key == r.key);
    assert(decoded.value == r.value);
    assert(decoded.valid == r.valid);
    assert(b.skip(SERIALIZED_RECORD_LEN as int) =~= tail);
}

pub proof fn lemma_scan_zeros(b: Seq<u8>)
    requires
        all_zeros(b),
    ensures
        spec_scan(b) == Some(Seq::<KVMemoryRepr>::empty()),
{
    if b.len() != 0 {
        if b.len() >= 3 {
            assert(spec_len_prefix(b) == 0);
        }
        assert(spec_decode_one(b) is None);
    }
}

pub proof fn lemma_records_bytes_len(rs: Seq<KVMemoryRepr>)
    ensures
        records_bytes(rs).len() == SERIALIZED_RECORD_LEN * rs.len(),
    decreases rs.len(),
{
    if rs.len() == 0 {
    } else {
        lemma_serialized_record_len(rs[0]);
        lemma_records_bytes_len(rs.skip(1));
    }
}

pub proof fn lemma_records_bytes_push(rs: Seq<KVMemoryRepr>, r: KVMemoryRepr)
    ensures
        records_bytes(rs.push(r)) == records_bytes(rs) + spec_serialized_record(r),
    decreases rs.len(),
{
    let rsp = rs.push(r);
    if rs.len() == 0 {
        reveal_with_fuel(records_bytes, 2);
        assert(rsp[0] == r);
        assert(rsp.skip(1) =~= Seq::<KVMemoryRepr>::empty());
        assert(records_bytes(rsp) == spec_serialized_record(r) + Seq::<u8>::empty());
        assert(spec_serialized_record(r) + Seq::<u8>::empty() =~= records_bytes(rs)
            + spec_serialized_record(r));
    } else {
        assert(rsp[0] == rs[0]);
        assert(rsp.skip(1) =~= rs.skip(1).push(r));
        lemma_records_bytes_push(rs.skip(1), r);
        assert(records_bytes(rsp) == spec_serialized_record(rs[0]) + (records_bytes(rs.skip(1))
            + spec_serialized_record(r)));
        assert(spec_serialized_record(rs[0]) + (records_bytes(rs.skip(1))
            + spec_serialized_record(r)) =~= (spec_serialized_record(rs[0]) + records_bytes(
            rs.skip(1),
        )) + spec_serialized_record(r));
    }
}

/// `records_bytes` distributes over splitting the record sequence.
pub proof fn lemma_records_bytes_split(rs: Seq<KVMemoryRepr>, i: int)
    requires
        0 <= i <= rs.len(),
    ensures
        records_bytes(rs) == records_bytes(rs.take(i)) + records_bytes(rs.skip(i)),
    decreases i,
{
    if i == 0 {
        assert(rs.take(0) =~= Seq::<KVMemoryRepr>::empty());
        assert(rs.skip(0) =~= rs);
        assert(records_bytes(rs) =~= records_bytes(rs.take(0)) + records_bytes(rs.skip(0)));
    } else {
        assert(rs.len() > 0);
        lemma_records_bytes_split(rs.skip(1), i - 1);
        assert(rs.skip(1).take(i - 1) =~= rs.take(i).skip(1));
        assert(rs.skip(1).skip(i - 1) =~= rs.skip(i));
        assert(records_bytes(rs.take(i)) == spec_serialized_record(rs.take(i)[0]) + records_bytes(
            rs.take(i).skip(1),
        ));
        assert(rs.take(i)[0] == rs[0]);
        assert(records_bytes(rs) =~= records_bytes(rs.take(i)) + records_bytes(rs.skip(i)));
    }
}

/// Scanning the serialized form of valid records, followed by a zero tail,
/// yields exactly those records.
pub proof fn lemma_scan_records(rs: Seq<KVMemoryRepr>, z: Seq<u8>)
    requires
        forall|i: int| 0 <= i < rs.len() ==> rs[i].valid,
        all_zeros(z),
    ensures
        spec_scan(records_bytes(rs) + z) == Some(rs),
    decreases rs.len(),
{
    if rs.len() == 0 {
        assert(records_bytes(rs) + z =~= z);
        lemma_scan_zeros(z);
    } else {
        let rest = records_bytes(rs.skip(1)) + z;
        assert(records_bytes(rs) + z =~= spec_serialized_record(rs[0]) + rest);
        lemma_decode_serialized(rs[0], rest);
        lemma_serialized_record_len(rs[0]);
        lemma_scan_records(rs.skip(1), z);
        assert(seq![rs[0]] + rs.skip(1) =~= rs);
    }
}

/// Round trip: a serialized record followed by empty space scans back to
/// exactly that one record.
pub proof fn lemma_scan_roundtrip(r: KVMemoryRepr, z: Seq<u8>)
    requires
        r.valid,
        all_zeros(z),
    ensures
        spec_scan(spec_serialized_record(r) + z) == Some(seq![r]),
{
    let rs = seq![r];
    assert(records_bytes(rs.skip(1)) =~= Seq::<u8>::empty());
    assert(records_bytes(rs) =~= spec_serialized_record(r));
    lemma_scan_records(rs, z);
}

/// Every record a successful scan returns has its valid flag set.
pub proof fn lemma_scan_all_valid(b: Seq<u8>)
    requires
        spec_scan(b) is Some,
    ensures
        forall|i: int|
            0 <= i < spec_scan(b)->Some_0.len() ==> (#[trigger] spec_scan(b)->Some_0[i]).valid,
    decreases b.len(),
{
    if b.len() == 0 {
    } else if b.len() >= SERIALIZED_RECORD_LEN && spec_decode_one(b) is Some {
        lemma_scan_all_valid(b.skip(SERIALIZED_RECORD_LEN as int));
    } else {
    }
}

/// Writes `length` into the first three bytes of `bytes` as a little-endian
/// prefix; fails with `TooBig` when the length does not fit in three bytes.
pub fn serialize_length(length: u64, bytes: &mut Vec<u8>) -> (r: Result<(), Error>)
    requires
        old(bytes)@.len() >= 3,
    ensures
        length > MAX_PREFIX_LENGTH <==> r is Err,
        r is Err ==> r == Err::<(), Error>(Error::TooBig),
        r is Err ==> final(bytes)@ == old(bytes)@,
        r is Ok ==> {
            &&& final(bytes)@ =~= seq![
                (length & 0xff) as u8,
                ((length >> 8) & 0xff) as u8,
                ((length >> 16) & 0xff) as u8,
            ] + old(bytes)@.skip(3)
            &&& spec_len_prefix(final(bytes)@) == length
        },
{
    if length > MAX_PREFIX_LENGTH {
        return Err(Error::TooBig);
    }
    proof {
        assert(length & 0xff < 256 && (length >> 8) & 0xff < 256 && (length >> 16) & 0xff
            < 256) by (bit_vector);
    }
    let b0: u8 = (length & 0xff) as u8;
    let b1: u8 = ((length >> 8) & 0xff) as u8;
    let b2: u8 = ((length >> 16) & 0xff) as u8;
    bytes[0] = b0;
    bytes[1] = b1;
    bytes[2] = b2;
    proof {
        assert((length & 0xff) + 256 * ((length >> 8) & 0xff) + 65536 * ((length >> 16) & 0xff)
            == length) by (bit_vector)
            requires
                length <= 0xFFFFFF,
        ;
        assert(bytes@ =~= seq![b0, b1, b2] + old(bytes)@.skip(3));
    }
    Ok(())
}

/// Reads the little-endian length out of a 3-byte prefix.
pub fn deserialize_length(bytes: &[u8]) -> (r: u64)
    requires
        bytes@.len() == 3,
    ensures
        r == spec_len_prefix(bytes@),
        r <= MAX_PREFIX_LENGTH,
{
    let b0 = bytes[0] as u64;
    let b1 = bytes[1] as u64;
    let b2 = bytes[2] as u64;
    b0 + 256 * b1 + 65536 * b2
}

/// Encodes a record as its 3-byte length prefix followed by the fixed
/// payload; the fixed payload always fits the prefix, so this never fails.
pub fn serialize(data: &KVMemoryRepr) -> (r: Result<Vec<u8>, Error>)
    ensures
        r matches Ok(v) && v@ == spec_serialized_record(*data),
        r matches Ok(v) && v@.len() == SERIALIZED_RECORD_LEN,
{
    let mut result: Vec<u8> = Vec::new();
    result.push(0);
    result.push(0);
    result.push(0);
    match serialize_length(RECORD_PAYLOAD_LEN as u64, &mut result) {
        Ok(_) => (),
        Err(e) => {
            proof {
                assert(false);
            }
            return Err(e);
        },
    }
    let mut key_bytes = u64_to_le_bytes(data.key);
    result.append(&mut key_bytes);
    if data.value.is_some() {
        result.push(1);
    } else {
        result.push(0);
    }
    let value_word: u64 = match data.value {
        Some(v) => v,
        None => 0,
    };
    let mut value_bytes = u64_to_le_bytes(value_word);
    result.append(&mut value_bytes);
    if data.valid {
        result.push(1);
    } else {
        result.push(0);
    }
    proof {
        lemma_auto_spec_u64_to_from_le_bytes();
        assert(result@ =~= spec_serialized_record(*data));
        lemma_serialized_record_len(*data);
    }
    Ok(result)
}

/// Whether `b` is too short to hold the record its length prefix declares:
/// no room for the prefix itself, a zero length (empty space, not a
/// record), or fewer payload bytes than declared.
pub open spec fn spec_buffer_too_small(b: Seq<u8>) -> bool {
    b.len() < 3 || spec_len_prefix(b) == 0 || b.len() < 3 + spec_len_prefix(b)
}

/// Decodes the record at the front of `bytes` and returns it with the
/// remaining bytes; fails with `BufferTooSmall` exactly when the buffer is
/// shorter than the declared record or the declared length is zero, and
/// with `DecodeFailed` exactly when the declared payload is not a valid
/// record encoding.
pub fn deserialize<'a>(bytes: &'a [u8]) -> (r: Result<(KVMemoryRepr, &'a [u8]), Error>)
    ensures
        r matches Ok(p) ==> {
            &&& spec_decode_one(bytes@) == Some(p.0)
            &&& p.1@ == bytes@.skip(SERIALIZED_RECORD_LEN as int)
        },
        r is Err <==> spec_decode_one(bytes@) is None,
        r == Err::<(KVMemoryRepr, &'a [u8]), Error>(
            Error::Serialization(SerializationError::BufferTooSmall),
        ) <==> spec_buffer_too_small(bytes@),
        r == Err::<(KVMemoryRepr, &'a [u8]), Error>(
            Error::Serialization(SerializationError::DecodeFailed),
        ) <==> (!spec_buffer_too_small(bytes@) && spec_decode_one(bytes@) is None),
{
    if bytes.len() < STRUCT_LEN_BYTES {
        return Err(Error::Serialization(SerializationError::BufferTooSmall));
    }
    let length_bytes = slice_subrange(bytes, 0, STRUCT_LEN_BYTES);
    let struct_len = deserialize_length(length_bytes);
    proof {
        assert(spec_len_prefix(bytes@.subrange(0, 3)) == spec_len_prefix(bytes@));
    }
    if struct_len == 0 {
        return Err(Error::Serialization(SerializationError::BufferTooSmall));
    }
    if (bytes.len() as u64) < STRUCT_LEN_BYTES as u64 + struct_len {
        return Err(Error::Serialization(SerializationError::BufferTooSmall));
    }
    if struct_len != RECORD_PAYLOAD_LEN as u64 {
        return Err(Error::Serialization(SerializationError::DecodeFailed));
    }
    let tag = bytes[11];
    let vb = bytes[20];
    if !(tag == 0 || tag == 1) || !(vb == 0 || vb == 1) {
        return Err(Error::Serialization(SerializationError::DecodeFailed));
    }
    let key = u64_from_le_bytes(slice_subrange(bytes, 3, 11));
    let value = if tag == 1 {
        Some(u64_from_le_bytes(slice_subrange(bytes, 12, 20)))
    } else {
        None
    };
    let entry = KVMemoryRepr { key, value, valid: vb == 1 };
    let remaining = slice_subrange(bytes, SERIALIZED_RECORD_LEN, bytes.len());
    Ok((entry, remaining))
}

/// Reports whether every byte of `buffer` at or after `pos` is zero.
fn rest_is_zero(buffer: &[u8], pos: usize) -> (z: bool)
    requires
        pos <= buffer@.len(),
    ensures
        z == all_zeros(buffer@.skip(pos as int)),
{
    let mut j = pos;
    while j < buffer.len()
        invariant
            pos <= j <= buffer@.len(),
            forall|i: int| pos <= i < j ==> buffer@[i] == 0,
        decreases buffer@.len() - j,
    {
        if buffer[j] != 0 {
            proof {
                assert(buffer@.skip(pos as int)[j - pos] == buffer@[j as int]);
            }
            return false;
        }
        j = j + 1;
    }
    proof {
        assert forall|i: int| 0 <= i < buffer@.skip(pos as int).len() implies buffer@.skip(
            pos as int,
        )[i] == 0 by {
            assert(buffer@.skip(pos as int)[i] == buffer@[i + pos]);
        }
    }
    true
}

/// Deserializes every record held by `buffer`, skipping records whose valid
/// flag is clear and tolerating a zero-filled tail; any other malformed
/// content is an error.
pub fn deserialize_entries_from_bytes(buffer: &[u8]) -> (r: Result<Vec<KVMemoryRepr>, Error>)
    ensures
        r matches Ok(v) ==> spec_scan(buffer@) == Some(v@),
        r is Err <==> spec_scan(buffer@) is None,
        r matches Err(e) ==> e matches Error::Serialization(_),
{
    let mut kv_entries: Vec<KVMemoryRepr> = Vec::new();
    let mut pos: usize = 0;
    proof {
        assert(buffer@.skip(0) =~= buffer@);
    }
    while pos < buffer.len()
        invariant
            pos <= buffer@.len(),
            spec_scan(buffer@) is Some <==> spec_scan(buffer@.skip(pos as int)) is Some,
            spec_scan(buffer@) is Some ==> spec_scan(buffer@)->Some_0 == kv_entries@ + spec_scan(
                buffer@.skip(pos as int),
            )->Some_0,
        decreases buffer@.len() - pos,
    {
        let remaining = slice_subrange(buffer, pos, buffer.len());
        proof {
            assert(remaining@ =~= buffer@.skip(pos as int));
        }
        match deserialize(remaining) {
            Ok((entry, _unused)) => {
                proof {
                    assert(buffer@.skip(pos as int).skip(SERIALIZED_RECORD_LEN as int)
                        =~= buffer@.skip(pos + SERIALIZED_RECORD_LEN));
                    if spec_scan(buffer@.skip(pos as int)) is Some && entry.valid {
                        assert(spec_scan(buffer@.skip(pos as int))->Some_0 == seq![entry]
                            + spec_scan(buffer@.skip(pos + SERIALIZED_RECORD_LEN))->Some_0);
                        assert(kv_entries@ + spec_scan(buffer@.skip(pos as int))->Some_0
                            =~= kv_entries@.push(entry) + spec_scan(
                            buffer@.skip(pos + SERIALIZED_RECORD_LEN),
                        )->Some_0);
                    }
                }
                if entry.valid {
                    kv_entries.push(entry);
                }
                pos = pos + SERIALIZED_RECORD_LEN;
            },
            Err(e) => {
                // The scan stops cleanly only when the rest of the buffer is
                // empty space (all zeros); anything else is malformed.
                if rest_is_zero(buffer, pos) {
                    proof {
                        lemma_scan_zeros(buffer@.skip(pos as int));
                        assert(kv_entries@ + spec_scan(buffer@.skip(pos as int))->Some_0
                            =~= kv_entries@);
                    }
                    return Ok(kv_entries);
                } else {
                    proof {
                        assert(spec_decode_one(buffer@.skip(pos as int)) is None);
                        assert(spec_scan(buffer@.skip(pos as int)) is None);
                    }
                    return Err(e);
                }
            },
        }
    }
    proof {
        assert(buffer@.skip(pos as int) =~= Seq::<u8>::empty());
        assert(spec_scan(buffer@.skip(pos as int)) == Some(Seq::<KVMemoryRepr>::empty()));
        if spec_scan(buffer@) is Some {
            assert(spec_scan(buffer@)->Some_0 =~= kv_entries@);
        }
    }
    Ok(kv_entries)
}

} // verus!
