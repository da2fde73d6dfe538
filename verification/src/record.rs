//! One logical mutation (a put or a delete) and its payload codec.
//!
//! A record is stored on disk as a MessagePack payload encoding, in order,
//! `timestamp`, `tombstone`, `key` and `value`.  The payload bytes are
//! produced and consumed by `rmp_serde`; the rest of the crate treats them
//! through the two named results `payload_of` and `payload_decode`.

use vstd::prelude::*;

verus! {

/// One logical mutation: a put (`tombstone == 0`) or a delete
/// (`tombstone == 1`, empty value).
#[derive(Debug)]
pub struct Record {
    pub timestamp: u64,
    pub tombstone: u8,
    pub key: String,
    pub value: String,
}

/// The mathematical content of a record.
pub struct RecordView {
    pub timestamp: u64,
    pub tombstone: u8,
    pub key: Seq<char>,
    pub value: Seq<char>,
}

impl View for Record {
    type V = RecordView;

    open spec fn view(&self) -> RecordView {
        RecordView {
            timestamp: self.timestamp,
            tombstone: self.tombstone,
            key: self.key@,
            value: self.value@,
        }
    }
}

impl Record {
    /// An empty put record, as used to initialize decode buffers.
    pub fn new() -> (r: Record)
        ensures
            r.timestamp == 0,
            r.tombstone == 0,
            r.key@ == Seq::<char>::empty(),
            r.value@ == Seq::<char>::empty(),
    {
        Record { timestamp: 0, tombstone: 0, key: String::new(), value: String::new() }
    }
}

/// The MessagePack payload that encodes the four record fields.
pub uninterp spec fn payload_of(
    timestamp: u64,
    tombstone: u8,
    key: Seq<char>,
    value: Seq<char>,
) -> Seq<u8>;

/// What decoding a payload byte sequence yields: the four record fields, or
/// nothing when the bytes do not hold a well-formed encoding.
pub uninterp spec fn payload_decode(bytes: Seq<u8>) -> Option<(u64, u8, Seq<char>, Seq<char>)>;

/// `payload_of`, bundled over a whole record view.
pub open spec fn payload_of_rec(r: RecordView) -> Seq<u8> {
    payload_of(r.timestamp, r.tombstone, r.key, r.value)
}

/// `payload_decode`, bundled into a record view.
pub open spec fn payload_decode_rec(bytes: Seq<u8>) -> Option<RecordView> {
    match payload_decode(bytes) {
        Some((timestamp, tombstone, key, value)) => Some(
            RecordView { timestamp, tombstone, key, value },
        ),
        None => None,
    }
}

/// The longest key or value the codec accepts, in characters.  MessagePack
/// stores a string's UTF-8 byte length in 32 bits, and a character takes at
/// most four UTF-8 bytes, so strings of at most (2^32 - 1) / 4 characters
/// always encode within the format's limit.
pub const MAX_TEXT_LEN: usize = 0x3fffffff;

/// Relies on `rmp_serde::to_vec`: the compact MessagePack encoding of a value
/// is a function of that value alone; for a tuple of integers and strings
/// whose UTF-8 lengths fit the format's 32-bit string headers -- which the
/// `MAX_TEXT_LEN` bound guarantees -- it fails only when allocation fails,
/// and `rmp_serde::from_slice` decodes the encoding back to the same tuple.
#[verifier::external_body]
pub(crate) fn encode_payload(r: &Record) -> (b: Vec<u8>)
    requires
        r.key@.len() <= MAX_TEXT_LEN,
        r.value@.len() <= MAX_TEXT_LEN,
    ensures
        b@ == payload_of(r.timestamp, r.tombstone, r.key@, r.value@),
        payload_decode(b@) == Some((r.timestamp, r.tombstone, r.key@, r.value@)),
{
    rmp_serde::to_vec(&(r.timestamp, r.tombstone, r.key.as_str(), r.value.as_str())).unwrap()
}

/// Relies on `rmp_serde::from_slice`: decoding is a function of the byte
/// slice alone; it returns the encoded tuple, or an error on malformed bytes.
#[verifier::external_body]
pub(crate) fn decode_payload(b: &[u8]) -> (r: Option<Record>)
    ensures
        match r {
            Some(rec) => payload_decode(b@) == Some(
                (rec.timestamp, rec.tombstone, rec.key@, rec.value@),
            ),
            None => payload_decode(b@) is None,
        },
{
    match rmp_serde::from_slice::<(u64, u8, String, String)>(b) {
        Ok((timestamp, tombstone, key, value)) => Some(
            Record { timestamp, tombstone, key, value },
        ),
        Err(_) => None,
    }
}

} // verus!
