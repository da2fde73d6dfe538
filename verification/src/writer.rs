//! Appending framed records to a segment.

use crate::frame::{frame_of, u64_to_be_bytes};
use crate::record::{encode_payload, payload_decode_rec, payload_of_rec, Record, MAX_TEXT_LEN};
use crate::KvsError;
use vstd::prelude::*;

verus! {

/// Appends one framed record to the segment bytes and returns the offset of
/// the frame's length prefix: the offset the key directory stores.
pub fn append_frame(data: &mut Vec<u8>, record: &Record) -> (off: usize)
    requires
        record.key@.len() <= MAX_TEXT_LEN,
        record.value@.len() <= MAX_TEXT_LEN,
    ensures
        final(data)@ == old(data)@ + frame_of(record@),
        off == old(data)@.len(),
        payload_decode_rec(payload_of_rec(record@)) == Some(record@),
        payload_of_rec(record@).len() <= u64::MAX,
{
    let off = data.len();
    let mut payload = encode_payload(record);
    let mut prefix = u64_to_be_bytes(payload.len() as u64);
    data.append(&mut prefix);
    data.append(&mut payload);
    proof {
        assert(data@ =~= old(data)@ + frame_of(record@));
    }
    off
}

/// Append-only writer over the bytes of one segment.
pub struct Writer {
    buf: Vec<u8>,
}

impl View for Writer {
    type V = Seq<u8>;

    closed spec fn view(&self) -> Seq<u8> {
        self.buf@
    }
}

impl Writer {
    /// Wraps segment bytes for appending framed records.
    pub fn new(buf: Vec<u8>) -> (w: Writer)
        ensures
            w@ == buf@,
    {
        Writer { buf }
    }

    /// Appends the frame of one record at the end of the buffer.
    pub fn write_record(&mut self, record: &Record) -> (r: Result<(), KvsError>)
        requires
            record.key@.len() <= MAX_TEXT_LEN,
            record.value@.len() <= MAX_TEXT_LEN,
        ensures
            r is Ok,
            final(self)@ == old(self)@ + frame_of(record@),
    {
        append_frame(&mut self.buf, record);
        Ok(())
    }

    /// The bytes written so far.
    pub fn bytes(&self) -> (b: &Vec<u8>)
        ensures
            b@ == self@,
    {
        &self.buf
    }
}

} // verus!
