//! The record codec: one log record is a 17-byte header followed by the key
//! and the value.
//!
//! | offset | size | field                         |
//! |--------|------|-------------------------------|
//! | 0      | 1    | record type (0 put, 1 delete) |
//! | 1      | 8    | timestamp, seconds, signed    |
//! | 9      | 4    | key length                    |
//! | 13     | 4    | value length                  |
//! | 17     | K    | key                           |
//! | 17 + K | V    | value                         |
//!
//! All integers are little-endian and nothing is padded.

use crate::error::KvError;
use crate::helper::{
    append_bytes, lemma_unsigned_roundtrip, system_time_to_bytes, timestamp_bytes,
    timestamp_of_bytes,
};
use vstd::array::array_as_slice;
use vstd::bytes::*;
use vstd::prelude::*;
use vstd::slice::slice_subrange;

verus! {

/// The number of bytes of a record header.
pub const HEADER_LEN: usize = 17;

/// The greatest length of a key, and of a value.
pub const MAX_FIELD_LEN: u64 = 0xFFFF_FFFF;

/// The type byte of a put record.
pub const TAG_PUT: u8 = 0;

/// The type byte of a delete record.
pub const TAG_DELETE: u8 = 1;

/// What a record does to its key.
#[derive(Clone, Copy, Debug, PartialEq, Eq, Structural)]
pub enum RecordType {
    Put,
    Delete,
}

impl RecordType {
    /// The type byte that stands for this record type on the wire.
    pub open spec fn tag(self) -> u8 {
        match self {
            RecordType::Put => TAG_PUT,
            RecordType::Delete => TAG_DELETE,
        }
    }

    /// The record type that a type byte stands for, if any.
    pub open spec fn of_tag(tag: u8) -> Option<RecordType> {
        if tag == TAG_PUT {
            Some(RecordType::Put)
        } else if tag == TAG_DELETE {
            Some(RecordType::Delete)
        } else {
            None
        }
    }

    /// The type byte of this record type.
    pub fn to_byte(self) -> (tag: u8)
        ensures
            tag == self.tag(),
    {
        match self {
            RecordType::Put => TAG_PUT,
            RecordType::Delete => TAG_DELETE,
        }
    }

    /// The record type of a type byte; `None` for a byte that names none.
    pub fn from_byte(tag: u8) -> (out: Option<RecordType>)
        ensures
            out == Self::of_tag(tag),
    {
        if tag == TAG_PUT {
            Some(RecordType::Put)
        } else if tag == TAG_DELETE {
            Some(RecordType::Delete)
        } else {
            None
        }
    }
}

/// The fixed-size front of a record. The type byte is kept as it was read:
/// the codec does not judge it.
#[derive(Clone, Copy, Debug, PartialEq, Eq, Structural)]
pub struct Header {
    pub record_type: u8,
    pub timestamp: i64,
    pub key_len: u32,
    pub value_len: u32,
}

impl Header {
    /// The 17 bytes of this header on the wire.
    pub open spec fn to_bytes(self) -> Seq<u8> {
        seq![self.record_type] + timestamp_bytes(self.timestamp) + spec_u32_to_le_bytes(
            self.key_len,
        ) + spec_u32_to_le_bytes(self.value_len)
    }

    /// The header that the first 17 bytes of `bytes` stand for.
    pub open spec fn of_bytes(bytes: Seq<u8>) -> Header
        recommends
            bytes.len() >= HEADER_LEN,
    {
        Header {
            record_type: bytes[0],
            timestamp: timestamp_of_bytes(bytes.subrange(1, 9)),
            key_len: spec_u32_from_le_bytes(bytes.subrange(9, 13)),
            value_len: spec_u32_from_le_bytes(bytes.subrange(13, 17)),
        }
    }

    /// The size on disk of the record that this header begins.
    pub open spec fn record_len(self) -> int {
        HEADER_LEN + self.key_len + self.value_len
    }

    /// The size on disk of the record that this header begins.
    pub fn total_len(&self) -> (n: u64)
        ensures
            n == self.record_len(),
    {
        HEADER_LEN as u64 + self.key_len as u64 + self.value_len as u64
    }
}

/// One record of the log, borrowing the caller's key and value.
pub struct Record<'a> {
    pub record_type: RecordType,
    /// Wall-clock seconds since the Unix epoch.
    pub timestamp: i64,
    pub key: &'a [u8],
    pub value: &'a [u8],
}

impl<'a> Record<'a> {
    /// A record that can be written: both lengths fit their 32-bit fields,
    /// and a delete carries no value.
    pub open spec fn wf(self) -> bool {
        &&& self.key@.len() <= MAX_FIELD_LEN
        &&& self.value@.len() <= MAX_FIELD_LEN
        &&& self.record_type == RecordType::Delete ==> self.value@.len() == 0
    }

    /// The header of this record.
    pub open spec fn header(self) -> Header {
        Header {
            record_type: self.record_type.tag(),
            timestamp: self.timestamp,
            key_len: self.key@.len() as u32,
            value_len: self.value@.len() as u32,
        }
    }

    /// The bytes of this record on the wire.
    pub open spec fn to_bytes(self) -> Seq<u8> {
        record_bytes(self.record_type, self.timestamp, self.key@, self.value@)
    }

    /// The size on disk of this record.
    pub open spec fn encoded_len(self) -> int {
        HEADER_LEN + self.key@.len() + self.value@.len()
    }
}

/// The bytes of a record on the wire: the header, the key, the value.
pub open spec fn record_bytes(
    record_type: RecordType,
    timestamp: i64,
    key: Seq<u8>,
    value: Seq<u8>,
) -> Seq<u8> {
    (Header {
        record_type: record_type.tag(),
        timestamp,
        key_len: key.len() as u32,
        value_len: value.len() as u32,
    }).to_bytes() + key + value
}

/// A whole header lies at `offset` in `bytes`.
pub open spec fn has_header_at(bytes: Seq<u8>, offset: int) -> bool {
    0 <= offset && offset + HEADER_LEN <= bytes.len()
}

/// The header that lies at `offset` in `bytes`.
pub open spec fn header_at(bytes: Seq<u8>, offset: int) -> Header
    recommends
        has_header_at(bytes, offset),
{
    Header::of_bytes(bytes.subrange(offset, offset + HEADER_LEN))
}

/// A whole record, header and payload, lies at `offset` in `bytes`.
pub open spec fn has_record_at(bytes: Seq<u8>, offset: int) -> bool {
    has_header_at(bytes, offset) && offset + header_at(bytes, offset).record_len() <= bytes.len()
}

/// The key of the record that lies at `offset` in `bytes`.
pub open spec fn key_at(bytes: Seq<u8>, offset: int) -> Seq<u8>
    recommends
        has_record_at(bytes, offset),
{
    bytes.subrange(offset + HEADER_LEN, offset + HEADER_LEN + header_at(bytes, offset).key_len)
}

/// The value of the record that lies at `offset` in `bytes`.
pub open spec fn value_at(bytes: Seq<u8>, offset: int) -> Seq<u8>
    recommends
        has_record_at(bytes, offset),
{
    let h = header_at(bytes, offset);
    bytes.subrange(offset + HEADER_LEN + h.key_len, offset + h.record_len())
}

/// A header's wire form is 17 bytes long and decodes to the header.
pub proof fn lemma_header_roundtrip(h: Header)
    ensures
        h.to_bytes().len() == HEADER_LEN,
        Header::of_bytes(h.to_bytes()) == h,
{
    lemma_auto_spec_u64_to_from_le_bytes();
    lemma_auto_spec_u32_to_from_le_bytes();
    lemma_unsigned_roundtrip(h.timestamp);
    let b = h.to_bytes();
    assert(b.len() == 17);
    assert(b[0] == h.record_type);
    assert(b.subrange(1, 9) =~= timestamp_bytes(h.timestamp));
    assert(b.subrange(9, 13) =~= spec_u32_to_le_bytes(h.key_len));
    assert(b.subrange(13, 17) =~= spec_u32_to_le_bytes(h.value_len));
}

/// A record written behind `prefix` is found there whole, with its type,
/// timestamp, key and value, whatever is written after it.
pub proof fn lemma_record_at_end(
    prefix: Seq<u8>,
    record_type: RecordType,
    timestamp: i64,
    key: Seq<u8>,
    value: Seq<u8>,
    suffix: Seq<u8>,
)
    requires
        key.len() <= MAX_FIELD_LEN,
        value.len() <= MAX_FIELD_LEN,
    ensures
        ({
            let log = prefix + record_bytes(record_type, timestamp, key, value) + suffix;
            let at = prefix.len() as int;
            &&& record_bytes(record_type, timestamp, key, value).len() == HEADER_LEN + key.len()
                + value.len()
            &&& has_record_at(log, at)
            &&& header_at(log, at).record_type == record_type.tag()
            &&& header_at(log, at).timestamp == timestamp
            &&& header_at(log, at).key_len == key.len()
            &&& header_at(log, at).value_len == value.len()
            &&& header_at(log, at).record_len() == HEADER_LEN + key.len() + value.len()
            &&& key_at(log, at) == key
            &&& value_at(log, at) == value
        }),
{
    let h = Header {
        record_type: record_type.tag(),
        timestamp,
        key_len: key.len() as u32,
        value_len: value.len() as u32,
    };
    lemma_header_roundtrip(h);
    let rec = record_bytes(record_type, timestamp, key, value);
    let log = prefix + rec + suffix;
    let at = prefix.len() as int;
    assert(rec.len() == HEADER_LEN + key.len() + value.len());
    assert(log.subrange(at, at + HEADER_LEN) =~= h.to_bytes());
    assert(header_at(log, at) == h);
    assert(key_at(log, at) =~= key);
    assert(value_at(log, at) =~= value);
}

/// What lies at an offset inside `bytes` is not changed by appending to
/// `bytes`.
pub proof fn lemma_record_at_stable(bytes: Seq<u8>, suffix: Seq<u8>, offset: int)
    requires
        has_header_at(bytes, offset),
    ensures
        has_header_at(bytes + suffix, offset),
        header_at(bytes + suffix, offset) == header_at(bytes, offset),
        has_record_at(bytes, offset) ==> {
            &&& has_record_at(bytes + suffix, offset)
            &&& key_at(bytes + suffix, offset) == key_at(bytes, offset)
            &&& value_at(bytes + suffix, offset) == value_at(bytes, offset)
        },
{
    let longer = bytes + suffix;
    assert(longer.subrange(offset, offset + HEADER_LEN) =~= bytes.subrange(
        offset,
        offset + HEADER_LEN,
    ));
    if has_record_at(bytes, offset) {
        assert(key_at(longer, offset) =~= key_at(bytes, offset));
        assert(value_at(longer, offset) =~= value_at(bytes, offset));
    }
}

/// Serializes a record: the 17-byte header, then the key, then the value.
pub fn encode(record: &Record) -> (out: Vec<u8>)
    requires
        record.wf(),
    ensures
        out@ == record.to_bytes(),
        out@.len() == record.encoded_len(),
{
    let mut out: Vec<u8> = Vec::new();
    out.push(record.record_type.to_byte());
    let ts = system_time_to_bytes(record.timestamp);
    append_bytes(&mut out, array_as_slice(&ts));
    let key_len = u32_to_le_bytes(record.key.len() as u32);
    append_bytes(&mut out, key_len.as_slice());
    let value_len = u32_to_le_bytes(record.value.len() as u32);
    append_bytes(&mut out, value_len.as_slice());
    assert(out@ =~= record.header().to_bytes());
    append_bytes(&mut out, record.key);
    append_bytes(&mut out, record.value);
    proof {
        lemma_header_roundtrip(record.header());
    }
    out
}

/// Parses the header that `bytes` begins with. Fewer than 17 bytes are a
/// short read, reported as `Corrupt`; the type byte is returned unjudged.
pub fn decode_header(bytes: &[u8]) -> (out: Result<Header, KvError>)
    ensures
        bytes@.len() < HEADER_LEN ==> out == Err::<Header, KvError>(KvError::Corrupt),
        bytes@.len() >= HEADER_LEN ==> out == Ok::<Header, KvError>(Header::of_bytes(bytes@)),
{
    if bytes.len() < HEADER_LEN {
        return Err(KvError::Corrupt);
    }
    let record_type = bytes[0];
    let ts = u64_from_le_bytes(slice_subrange(bytes, 1, 9));
    let key_len = u32_from_le_bytes(slice_subrange(bytes, 9, 13));
    let value_len = u32_from_le_bytes(slice_subrange(bytes, 13, 17));
    Ok(Header { record_type, timestamp: #[verifier::truncate] (ts as i64), key_len, value_len })
}

} // verus!
