//! The on-disk framing of records inside a segment.
//!
//! A segment file is a concatenation of frames with no header or footer.
//! Each frame is an 8-byte big-endian unsigned payload length followed by
//! exactly that many payload bytes (the record encoding).  Scanning a segment
//! walks the frames from an offset; a truncated final frame ends the scan,
//! while a complete frame whose payload does not decode marks corruption.

use crate::record::{payload_decode_rec, payload_of_rec, RecordView};
use vstd::prelude::*;

verus! {

/// The big-endian bytes of a 64-bit length prefix.
pub open spec fn spec_u64_to_be_bytes(x: u64) -> Seq<u8> {
    seq![
        ((x >> 56) & 0xff) as u8,
        ((x >> 48) & 0xff) as u8,
        ((x >> 40) & 0xff) as u8,
        ((x >> 32) & 0xff) as u8,
        ((x >> 24) & 0xff) as u8,
        ((x >> 16) & 0xff) as u8,
        ((x >> 8) & 0xff) as u8,
        (x & 0xff) as u8,
    ]
}

/// The 64-bit value read back from 8 big-endian bytes.
pub open spec fn spec_u64_from_be_bytes(s: Seq<u8>) -> u64
    recommends
        s.len() == 8,
{
    (s[0] as u64) << 56 | (s[1] as u64) << 48 | (s[2] as u64) << 40 | (s[3] as u64) << 32 | (
    s[4] as u64) << 24 | (s[5] as u64) << 16 | (s[6] as u64) << 8 | (s[7] as u64)
}

/// Writing back the value read from 8 big-endian bytes yields the bytes.
pub proof fn lemma_u64_be_bytes_roundtrip_rev(s: Seq<u8>)
    requires
        s.len() == 8,
    ensures
        spec_u64_to_be_bytes(spec_u64_from_be_bytes(s)) == s,
{
    let x = spec_u64_from_be_bytes(s);
    let s0 = s[0] as u64;
    let s1 = s[1] as u64;
    let s2 = s[2] as u64;
    let s3 = s[3] as u64;
    let s4 = s[4] as u64;
    let s5 = s[5] as u64;
    let s6 = s[6] as u64;
    let s7 = s[7] as u64;
    assert(((x == (s0 << 56) | (s1 << 48) | (s2 << 40) | (s3 << 32) | (s4 << 24) | (s5 << 16) | (
    s6 << 8) | s7) && s0 < 256 && s1 < 256 && s2 < 256 && s3 < 256 && s4 < 256 && s5 < 256 && s6
        < 256 && s7 < 256) ==> ((x >> 56) & 0xff == s0 && (x >> 48) & 0xff == s1 && (x >> 40)
        & 0xff == s2 && (x >> 32) & 0xff == s3 && (x >> 24) & 0xff == s4 && (x >> 16) & 0xff == s5
        && (x >> 8) & 0xff == s6 && x & 0xff == s7)) by (bit_vector);
    assert(spec_u64_to_be_bytes(x) =~= s);
}

/// Reading back the big-endian bytes of a value yields the value.
pub proof fn lemma_u64_be_bytes_roundtrip(x: u64)
    ensures
        spec_u64_to_be_bytes(x).len() == 8,
        spec_u64_from_be_bytes(spec_u64_to_be_bytes(x)) == x,
{
    assert((((x >> 56) & 0xff) << 56) | (((x >> 48) & 0xff) << 48) | (((x >> 40) & 0xff) << 40) | (
    ((x >> 32) & 0xff) << 32) | (((x >> 24) & 0xff) << 24) | (((x >> 16) & 0xff) << 16) | (((x >> 8)
        & 0xff) << 8) | (x & 0xff) == x) by (bit_vector);
    assert(((x >> 56) & 0xff) as u8 as u64 == (x >> 56) & 0xff) by (bit_vector);
    assert(((x >> 48) & 0xff) as u8 as u64 == (x >> 48) & 0xff) by (bit_vector);
    assert(((x >> 40) & 0xff) as u8 as u64 == (x >> 40) & 0xff) by (bit_vector);
    assert(((x >> 32) & 0xff) as u8 as u64 == (x >> 32) & 0xff) by (bit_vector);
    assert(((x >> 24) & 0xff) as u8 as u64 == (x >> 24) & 0xff) by (bit_vector);
    assert(((x >> 16) & 0xff) as u8 as u64 == (x >> 16) & 0xff) by (bit_vector);
    assert(((x >> 8) & 0xff) as u8 as u64 == (x >> 8) & 0xff) by (bit_vector);
    assert((x & 0xff) as u8 as u64 == x & 0xff) by (bit_vector);
}

/// Writes a length prefix in big-endian order.
pub fn u64_to_be_bytes(x: u64) -> (s: Vec<u8>)
    ensures
        s@ == spec_u64_to_be_bytes(x),
{
    let mut v: Vec<u8> = Vec::new();
    v.push(((x >> 56) & 0xff) as u8);
    v.push(((x >> 48) & 0xff) as u8);
    v.push(((x >> 40) & 0xff) as u8);
    v.push(((x >> 32) & 0xff) as u8);
    v.push(((x >> 24) & 0xff) as u8);
    v.push(((x >> 16) & 0xff) as u8);
    v.push(((x >> 8) & 0xff) as u8);
    v.push((x & 0xff) as u8);
    proof {
        assert(v@ =~= spec_u64_to_be_bytes(x));
    }
    v
}

/// Reads a length prefix back from big-endian bytes.
pub fn u64_from_be_bytes(s: &[u8]) -> (x: u64)
    requires
        s@.len() == 8,
    ensures
        x == spec_u64_from_be_bytes(s@),
{
    (s[0] as u64) << 56 | (s[1] as u64) << 48 | (s[2] as u64) << 40 | (s[3] as u64) << 32 | (
    s[4] as u64) << 24 | (s[5] as u64) << 16 | (s[6] as u64) << 8 | (s[7] as u64)
}

/// A frame around payload bytes: length prefix, then the payload.
pub open spec fn frame_bytes(p: Seq<u8>) -> Seq<u8> {
    spec_u64_to_be_bytes(p.len() as u64) + p
}

/// The frame bytes of one record in its canonical encoding.
pub open spec fn frame_of(r: RecordView) -> Seq<u8> {
    frame_bytes(payload_of_rec(r))
}

/// A record as it stands in a segment: its start offset and its content.
pub struct FrameView {
    pub off: int,
    pub rec: RecordView,
}

/// What one scan step finds at an offset: a frame and the offset after it,
/// the end of the readable data (no bytes, or a truncated final frame), or a
/// complete frame whose payload does not decode.
pub enum StepView {
    Rec(FrameView, int),
    End,
    Corrupt,
}

/// One scan step at `pos`.
pub open spec fn scan_step(data: Seq<u8>, pos: int) -> StepView {
    if pos + 8 > data.len() {
        StepView::End
    } else {
        let len = spec_u64_from_be_bytes(data.subrange(pos, pos + 8)) as int;
        if pos + 8 + len > data.len() {
            StepView::End
        } else {
            match payload_decode_rec(data.subrange(pos + 8, pos + 8 + len)) {
                Some(r) => StepView::Rec(FrameView { off: pos, rec: r }, pos + 8 + len),
                None => StepView::Corrupt,
            }
        }
    }
}

/// The outcome of scanning a segment's bytes from an offset: the frames in
/// order, the offset where the scan stopped, and whether it stopped cleanly
/// (at the end or at a truncated final frame) rather than on corruption.
pub struct ScanView {
    pub frames: Seq<FrameView>,
    pub end: int,
    pub ok: bool,
}

/// Scans the data from `pos` until the readable frames run out.
pub open spec fn scan_from(data: Seq<u8>, pos: int) -> ScanView
    decreases data.len() - pos,
    when 0 <= pos <= data.len()
{
    match scan_step(data, pos) {
        StepView::End => ScanView { frames: seq![], end: pos, ok: true },
        StepView::Corrupt => ScanView { frames: seq![], end: pos, ok: false },
        StepView::Rec(f, next) => {
            let rest = scan_from(data, next);
            ScanView { frames: seq![f] + rest.frames, end: rest.end, ok: rest.ok }
        },
    }
}

/// Scans a whole segment.
pub open spec fn scan(data: Seq<u8>) -> ScanView {
    scan_from(data, 0)
}

/// The data is a clean concatenation of frames: the scan reads every byte
/// and meets no corruption.
pub open spec fn well_framed(data: Seq<u8>) -> bool {
    scan(data).ok && scan(data).end == data.len()
}

/// The offset just after frame `i` of a scan: the next frame's offset, or
/// where the scan stopped.
pub open spec fn frame_next(s: ScanView, i: int) -> int {
    if i + 1 < s.frames.len() {
        s.frames[i + 1].off
    } else {
        s.end
    }
}

/// Frame `f` stands readable in `data`, with `next` the offset after it.
pub open spec fn frame_readable(data: Seq<u8>, f: FrameView, next: int) -> bool {
    &&& 0 <= f.off
    &&& f.off + 8 <= data.len()
    &&& {
        let len = spec_u64_from_be_bytes(data.subrange(f.off, f.off + 8)) as int;
        &&& f.off + 8 + len <= data.len()
        &&& next == f.off + 8 + len
        &&& payload_decode_rec(data.subrange(f.off + 8, f.off + 8 + len)) == Some(f.rec)
    }
}

/// Every frame a scan yields stands readable at its offset, the frames are
/// contiguous, and the scan stops between `pos` and the end of the data.
pub proof fn lemma_scan_from_props(data: Seq<u8>, pos: int)
    requires
        0 <= pos <= data.len(),
    ensures
        ({
            let s = scan_from(data, pos);
            &&& pos <= s.end <= data.len()
            &&& (s.frames.len() > 0 ==> s.frames[0].off == pos)
            &&& (s.frames.len() == 0 ==> s.end == pos)
            &&& (forall|i: int| 0 <= i < s.frames.len() ==> pos <= (#[trigger] s.frames[i]).off)
            &&& forall|i: int|
                0 <= i < s.frames.len() ==> frame_readable(data, s.frames[i], frame_next(s, i))
        }),
    decreases data.len() - pos,
{
    let s = scan_from(data, pos);
    match scan_step(data, pos) {
        StepView::End => {},
        StepView::Corrupt => {},
        StepView::Rec(f, next) => {
            lemma_scan_from_props(data, next);
            let rest = scan_from(data, next);
            assert(s.frames == seq![f] + rest.frames);
            assert(frame_readable(data, f, next));
            assert forall|i: int|
                0 <= i < s.frames.len() implies pos <= (#[trigger] s.frames[i]).off by {
                if i > 0 {
                    assert(s.frames[i] == rest.frames[i - 1]);
                    assert(next <= rest.frames[i - 1].off);
                }
            }
            assert forall|i: int|
                0 <= i < s.frames.len() implies frame_readable(
                data,
                s.frames[i],
                frame_next(s, i),
            ) by {
                if i == 0 {
                    assert(s.frames[0] == f);
                    if rest.frames.len() > 0 {
                        assert(frame_next(s, 0) == rest.frames[0].off);
                        assert(rest.frames[0].off == next);
                    } else {
                        assert(frame_next(s, 0) == rest.end);
                        assert(rest.end == next);
                    }
                } else {
                    assert(s.frames[i] == rest.frames[i - 1]);
                    assert(frame_next(s, i) == frame_next(rest, i - 1));
                    assert(frame_readable(data, rest.frames[i - 1], frame_next(rest, i - 1)));
                }
            }
        },
    }
}

/// A readable frame is found again by a single scan step at its offset.
pub proof fn lemma_readable_step(data: Seq<u8>, f: FrameView, next: int)
    requires
        frame_readable(data, f, next),
    ensures
        scan_step(data, f.off) == StepView::Rec(f, next),
{
}

/// Appending one well-formed frame to cleanly framed data extends the scan
/// by exactly that frame.  The payload may be any bytes that decode to the
/// record: its canonical encoding, or a copy of a frame read back from disk.
pub proof fn lemma_scan_append_from(data: Seq<u8>, payload: Seq<u8>, r: RecordView, pos: int)
    requires
        0 <= pos <= data.len(),
        scan_from(data, pos).ok,
        scan_from(data, pos).end == data.len(),
        payload_decode_rec(payload) == Some(r),
        payload.len() <= u64::MAX,
    ensures
        ({
            let s = scan_from(data, pos);
            let d2 = data + frame_bytes(payload);
            let s2 = scan_from(d2, pos);
            &&& s2.ok
            &&& s2.end == d2.len()
            &&& s2.frames == s.frames.push(FrameView { off: data.len() as int, rec: r })
        }),
    decreases data.len() - pos,
{
    let s = scan_from(data, pos);
    let d2 = data + frame_bytes(payload);
    let plen = payload.len() as int;
    let newf = FrameView { off: data.len() as int, rec: r };
    lemma_u64_be_bytes_roundtrip(payload.len() as u64);
    match scan_step(data, pos) {
        StepView::End => {
            assert(s.end == pos);
            assert(pos == data.len());
            assert(d2.len() == pos + 8 + plen);
            assert(d2.subrange(pos, pos + 8) =~= spec_u64_to_be_bytes(payload.len() as u64));
            assert(spec_u64_from_be_bytes(d2.subrange(pos, pos + 8)) as int == plen);
            assert(d2.subrange(pos + 8, pos + 8 + plen) =~= payload);
            assert(scan_step(d2, pos) == StepView::Rec(newf, pos + 8 + plen));
            assert(scan_step(d2, pos + 8 + plen) == StepView::End);
            assert(scan_from(d2, pos + 8 + plen) == ScanView {
                frames: Seq::<FrameView>::empty(),
                end: pos + 8 + plen,
                ok: true,
            });
            assert(scan_from(d2, pos) == ScanView {
                frames: seq![newf] + scan_from(d2, pos + 8 + plen).frames,
                end: scan_from(d2, pos + 8 + plen).end,
                ok: scan_from(d2, pos + 8 + plen).ok,
            });
            assert(s.frames == Seq::<FrameView>::empty());
            assert(scan_from(d2, pos).frames =~= s.frames.push(newf));
        },
        StepView::Corrupt => {
            assert(!s.ok);
        },
        StepView::Rec(f, next) => {
            lemma_scan_from_props(data, pos);
            assert(pos + 8 <= data.len());
            let len = spec_u64_from_be_bytes(data.subrange(pos, pos + 8)) as int;
            assert(pos + 8 + len <= data.len());
            assert(next == pos + 8 + len);
            assert(d2.subrange(pos, pos + 8) =~= data.subrange(pos, pos + 8));
            assert(d2.subrange(pos + 8, pos + 8 + len) =~= data.subrange(pos + 8, pos + 8 + len));
            assert(scan_step(d2, pos) == StepView::Rec(f, next));
            lemma_scan_append_from(data, payload, r, next);
            let rest = scan_from(data, next);
            assert(s.frames == seq![f] + rest.frames);
            assert(scan_from(d2, next).frames == rest.frames.push(newf));
            assert(scan_from(d2, pos) == ScanView {
                frames: seq![f] + scan_from(d2, next).frames,
                end: scan_from(d2, next).end,
                ok: scan_from(d2, next).ok,
            });
            assert(scan_from(d2, pos).frames =~= s.frames.push(newf));
        },
    }
}

/// `lemma_scan_append_from`, stated over whole segments.
pub proof fn lemma_scan_append_bytes(data: Seq<u8>, payload: Seq<u8>, r: RecordView)
    requires
        well_framed(data),
        payload_decode_rec(payload) == Some(r),
        payload.len() <= u64::MAX,
    ensures
        well_framed(data + frame_bytes(payload)),
        scan(data + frame_bytes(payload)).frames == scan(data).frames.push(
            FrameView { off: data.len() as int, rec: r },
        ),
{
    lemma_scan_append_from(data, payload, r, 0);
}

/// `lemma_scan_append_bytes` for a record in its canonical encoding.
pub proof fn lemma_scan_append(data: Seq<u8>, r: RecordView)
    requires
        well_framed(data),
        payload_decode_rec(payload_of_rec(r)) == Some(r),
        payload_of_rec(r).len() <= u64::MAX,
    ensures
        well_framed(data + frame_of(r)),
        scan(data + frame_of(r)).frames == scan(data).frames.push(
            FrameView { off: data.len() as int, rec: r },
        ),
{
    lemma_scan_append_bytes(data, payload_of_rec(r), r);
}

/// Cutting the unreadable tail off keeps the frames of a clean scan and
/// leaves cleanly framed data.
proof fn lemma_scan_take_end_from(data: Seq<u8>, pos: int)
    requires
        0 <= pos <= data.len(),
        scan_from(data, pos).ok,
    ensures
        ({
            let s = scan_from(data, pos);
            let d2 = data.take(s.end);
            let s2 = scan_from(d2, pos);
            &&& s2.ok
            &&& s2.end == s.end
            &&& s2.frames == s.frames
        }),
    decreases data.len() - pos,
{
    let s = scan_from(data, pos);
    lemma_scan_from_props(data, pos);
    let d2 = data.take(s.end);
    match scan_step(data, pos) {
        StepView::End => {
            assert(s.end == pos);
            assert(d2.len() == pos);
            assert(scan_step(d2, pos) == StepView::End);
        },
        StepView::Corrupt => {
            assert(!s.ok);
        },
        StepView::Rec(f, next) => {
            lemma_scan_from_props(data, next);
            let rest = scan_from(data, next);
            assert(s.end == rest.end);
            assert(next <= s.end);
            let len = spec_u64_from_be_bytes(data.subrange(pos, pos + 8)) as int;
            assert(d2.subrange(pos, pos + 8) =~= data.subrange(pos, pos + 8));
            assert(d2.subrange(pos + 8, pos + 8 + len) =~= data.subrange(pos + 8, pos + 8 + len));
            assert(scan_step(d2, pos) == StepView::Rec(f, next));
            lemma_scan_take_end_from(data, next);
            assert(scan_from(d2, pos).frames =~= s.frames);
        },
    }
}

/// Truncating cleanly framed data at any point keeps exactly the frames
/// that lie wholly within the kept prefix, and the scan still ends cleanly.
proof fn lemma_scan_truncate_from(data: Seq<u8>, n: int, pos: int)
    requires
        0 <= pos <= n <= data.len(),
        scan_from(data, pos).ok,
        scan_from(data, pos).end == data.len(),
    ensures
        ({
            let s = scan_from(data, pos);
            let s2 = scan_from(data.take(n), pos);
            &&& s2.ok
            &&& exists|j: int|
                0 <= j <= s.frames.len() && s2.frames == s.frames.take(j) && (forall|i: int|
                    0 <= i < s.frames.len() ==> (#[trigger] frame_next(s, i) <= n <==> i < j))
        }),
    decreases data.len() - pos,
{
    let s = scan_from(data, pos);
    let d2 = data.take(n);
    let s2 = scan_from(d2, pos);
    lemma_scan_from_props(data, pos);
    match scan_step(data, pos) {
        StepView::End => {
            assert(pos == data.len());
            assert(n == pos);
            assert(scan_step(d2, pos) == StepView::End);
            assert(s2.frames =~= s.frames.take(0));
            assert(0 <= 0 <= s.frames.len() && s2.frames == s.frames.take(0) && (forall|i: int|
                0 <= i < s.frames.len() ==> (#[trigger] frame_next(s, i) <= n <==> i < 0)));
        },
        StepView::Corrupt => {
            assert(!s.ok);
        },
        StepView::Rec(f, next) => {
            lemma_scan_from_props(data, next);
            let rest = scan_from(data, next);
            assert(s.frames == seq![f] + rest.frames);
            if next <= n {
                let len = spec_u64_from_be_bytes(data.subrange(pos, pos + 8)) as int;
                assert(d2.subrange(pos, pos + 8) =~= data.subrange(pos, pos + 8));
                assert(d2.subrange(pos + 8, pos + 8 + len) =~= data.subrange(
                    pos + 8,
                    pos + 8 + len,
                ));
                assert(scan_step(d2, pos) == StepView::Rec(f, next));
                lemma_scan_truncate_from(data, n, next);
                let rest2 = scan_from(d2, next);
                let j = choose|j: int|
                    0 <= j <= rest.frames.len() && rest2.frames == rest.frames.take(j) && (
                    forall|i: int|
                        0 <= i < rest.frames.len() ==> (#[trigger] frame_next(rest, i) <= n <==> i
                            < j));
                assert(s2.frames == seq![f] + rest2.frames);
                assert(s2.frames =~= s.frames.take(j + 1));
                assert forall|i: int|
                    0 <= i < s.frames.len() implies (#[trigger] frame_next(s, i) <= n <==> i < j
                    + 1) by {
                    if i == 0 {
                        if rest.frames.len() > 0 {
                            assert(rest.frames[0].off == next);
                            assert(frame_next(s, 0) == next);
                        } else {
                            assert(frame_next(s, 0) == rest.end);
                            assert(rest.end == next);
                        }
                    } else {
                        assert(s.frames[i] == rest.frames[i - 1]);
                        assert(frame_next(s, i) == frame_next(rest, i - 1));
                    }
                }
            } else {
                if pos + 8 <= n {
                    let len = spec_u64_from_be_bytes(data.subrange(pos, pos + 8)) as int;
                    assert(d2.subrange(pos, pos + 8) =~= data.subrange(pos, pos + 8));
                    assert(pos + 8 + len > d2.len());
                    assert(scan_step(d2, pos) == StepView::End);
                } else {
                    assert(scan_step(d2, pos) == StepView::End);
                }
                assert(s2.frames =~= s.frames.take(0));
                assert forall|i: int|
                    0 <= i < s.frames.len() implies (#[trigger] frame_next(s, i) <= n <==> i
                    < 0) by {
                    if i == 0 {
                        if rest.frames.len() > 0 {
                            assert(rest.frames[0].off == next);
                            assert(frame_next(s, 0) == next);
                        } else {
                            assert(frame_next(s, 0) == rest.end);
                            assert(rest.end == next);
                        }
                        assert(frame_next(s, 0) == next);
                    } else {
                        assert(s.frames[i] == rest.frames[i - 1]);
                        assert(frame_next(s, i) == frame_next(rest, i - 1));
                        assert(frame_readable(data, rest.frames[i - 1], frame_next(rest, i - 1)));
                        assert(next <= rest.frames[i - 1].off);
                        assert(frame_next(rest, i - 1) >= rest.frames[i - 1].off + 8);
                    }
                }
                assert(0 <= 0 <= s.frames.len() && s2.frames == s.frames.take(0) && (forall|
                    i: int,
                |
                    0 <= i < s.frames.len() ==> (#[trigger] frame_next(s, i) <= n <==> i < 0)));
            }
        },
    }
}

/// `lemma_scan_truncate_from`, stated over whole segments.
pub proof fn lemma_scan_truncate(data: Seq<u8>, n: int)
    requires
        well_framed(data),
        0 <= n <= data.len(),
    ensures
        ({
            let s = scan(data);
            let s2 = scan(data.take(n));
            &&& s2.ok
            &&& exists|j: int|
                0 <= j <= s.frames.len() && s2.frames == s.frames.take(j) && (forall|i: int|
                    0 <= i < s.frames.len() ==> (#[trigger] frame_next(s, i) <= n <==> i < j))
        }),
{
    lemma_scan_truncate_from(data, n, 0);
}

/// `lemma_scan_take_end_from`, stated over whole segments.
pub proof fn lemma_scan_take_end(data: Seq<u8>)
    requires
        scan(data).ok,
    ensures
        well_framed(data.take(scan(data).end)),
        scan(data.take(scan(data).end)).frames == scan(data).frames,
        scan(data.take(scan(data).end)).end == scan(data).end,
    decreases data.len(),
{
    lemma_scan_from_props(data, 0);
    lemma_scan_take_end_from(data, 0);
}

} // verus!
