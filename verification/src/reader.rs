//! Reading framed records back from segment bytes.

use crate::frame::{scan_step, u64_from_be_bytes, FrameView, StepView};
use crate::record::{decode_payload, Record};
use vstd::prelude::*;
use vstd::slice::slice_subrange;

verus! {

/// What reading at an offset yields: a record and the offset after its
/// frame, the end of the readable data, or a corrupt frame.
pub enum ReadOutcome {
    Rec(Record, usize),
    End,
    Corrupt,
}

/// Decodes the record whose frame starts at `pos`, mirroring one scan step:
/// missing or truncated frames end the read, and a complete frame whose
/// payload does not decode is corruption.
pub fn read_record(data: &[u8], pos: usize) -> (r: ReadOutcome)
    requires
        pos <= data@.len(),
    ensures
        match r {
            ReadOutcome::Rec(record, next) => scan_step(data@, pos as int) == StepView::Rec(
                FrameView { off: pos as int, rec: record@ },
                next as int,
            ),
            ReadOutcome::End => scan_step(data@, pos as int) == StepView::End,
            ReadOutcome::Corrupt => scan_step(data@, pos as int) == StepView::Corrupt,
        },
{
    if data.len() - pos < 8 {
        return ReadOutcome::End;
    }
    let prefix = slice_subrange(data, pos, pos + 8);
    let len64 = u64_from_be_bytes(prefix);
    let rest = data.len() - pos - 8;
    if len64 > rest as u64 {
        return ReadOutcome::End;
    }
    let len = len64 as usize;
    let payload = slice_subrange(data, pos + 8, pos + 8 + len);
    match decode_payload(payload) {
        Some(record) => ReadOutcome::Rec(record, pos + 8 + len),
        None => ReadOutcome::Corrupt,
    }
}

} // verus!
