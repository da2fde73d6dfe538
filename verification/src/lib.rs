//! A persistent, crash-tolerant, single-process key/value store.
//!
//! Mutations are appended as framed records to the tail of the active
//! segment; reads go through an in-memory key directory that maps each live
//! key to the location of its most recent record.  Segment bytes are held by
//! the store; enumerating, loading and persisting the segment files of a data
//! directory is the embedding application's job.

pub mod frame;
pub mod keydir;
pub mod laws;
pub mod reader;
pub mod record;
pub mod replay;
pub mod writer;

use crate::frame::{frame_bytes, frame_next, frame_of, frame_readable,
    lemma_readable_step, lemma_scan_from_props, lemma_scan_take_end,
    lemma_u64_be_bytes_roundtrip_rev, scan, scan_from, scan_step, spec_u64_from_be_bytes,
    well_framed, FrameView, ScanView, StepView};
use crate::keydir::{KeyDir, KeyInfo};
use crate::reader::{read_record, ReadOutcome};
use crate::record::{payload_decode_rec, Record, RecordView, MAX_TEXT_LEN};
use crate::replay::{all_frames, all_scans_ok, distinct_seqs, info_of, insert_sorted, is_live,
    kd_of, keep_live, lemma_all_frames_append_active, lemma_all_frames_append_bytes,
    lemma_all_frames_push_empty,
    lemma_compaction_preserves, lemma_frame_in_segment, lemma_keep_live_push, lemma_keep_live_sub,
    lemma_last_wins, lemma_live_kept, lemma_max_seq, lemma_max_timestamp, lemma_proj_props,
    lemma_replay_push, lemma_sort_segs, lemma_trim_segs, located, max_seq, max_timestamp, proj,
    recs_of, seg_frames, sort_segs, state_of, trim_seg, trim_segs, SegFrame, SegView};
use crate::writer::append_frame;
use vstd::pervasive::unreached;
use vstd::slice::{slice_subrange, slice_to_vec};
use vstd::prelude::*;
use vstd::string::StrSliceExecFns;

verus! {

/// The error kinds of the store.
#[derive(Debug, Clone, Copy, PartialEq, Eq, Structural)]
pub enum KvsError {
    /// A failure of the underlying storage, including a corrupt segment.
    Io,
    /// `remove` was asked for a key that is not present.
    KeyNotFound,
    /// Catch-all for states that normal operation never produces, such as
    /// a persisted timestamp at the counter's ceiling.
    Unknown,
}

/// A new active segment is started once the active one holds more than this
/// many bytes.
pub const ROLLOVER_THRESHOLD: usize = 1000;

/// Compaction runs once a write leaves more than this many segments.
pub const COMPACTION_THRESHOLD: usize = 6;

/// One append-only segment: its sequence number and its bytes.
pub struct Segment {
    pub seq: u64,
    pub data: Vec<u8>,
}

impl View for Segment {
    type V = SegView;

    open spec fn view(&self) -> SegView {
        SegView { seq: self.seq, data: self.data@ }
    }
}

/// The segments as mathematics, in the same order.
pub open spec fn seg_views(s: Seq<Segment>) -> Seq<SegView> {
    s.map_values(|x: Segment| x@)
}

/// Inserts a segment into a run kept in ascending sequence-number order.
fn insert_sorted_seg(v: Vec<Segment>, x: Segment) -> (out: Vec<Segment>)
    ensures
        seg_views(out@) == insert_sorted(seg_views(v@), x@),
    decreases v@.len(),
{
    let mut vv = v;
    if vv.len() == 0 {
        vv.push(x);
        proof {
            assert(seg_views(vv@) =~= insert_sorted(seg_views(v@), x@));
        }
        vv
    } else if vv[vv.len() - 1].seq <= x.seq {
        let ghost pre = seg_views(vv@);
        vv.push(x);
        proof {
            assert(seg_views(vv@) =~= pre.push(x@));
        }
        vv
    } else {
        let ghost pre = seg_views(vv@);
        let last = vv.pop().unwrap();
        proof {
            assert(seg_views(vv@) =~= pre.drop_last());
        }
        let mut r = insert_sorted_seg(vv, x);
        let ghost mid = seg_views(r@);
        r.push(last);
        proof {
            assert(seg_views(r@) =~= mid.push(pre.last()));
        }
        r
    }
}

/// Sorts segments ascending by sequence number.
fn sort_segments(v: Vec<Segment>) -> (out: Vec<Segment>)
    ensures
        seg_views(out@) == sort_segs(seg_views(v@)),
    decreases v@.len(),
{
    let mut v2 = v;
    match v2.pop() {
        None => {
            proof {
                assert(seg_views(v2@) =~= sort_segs(seg_views(v@)));
            }
            v2
        },
        Some(x) => {
            proof {
                assert(seg_views(v2@) =~= seg_views(v@).drop_last());
                assert(x@ == seg_views(v@).last());
            }
            let r = sort_segments(v2);
            insert_sorted_seg(r, x)
        },
    }
}

/// A decimal digit.
pub open spec fn is_digit(c: char) -> bool {
    48 <= c as u32 <= 57
}

/// The value of a decimal digit.
pub open spec fn digit_val(c: char) -> int {
    c as u32 - 48
}

/// The value of a string of decimal digits.
pub open spec fn digits_val(s: Seq<char>) -> int
    decreases s.len(),
{
    if s.len() == 0 {
        0
    } else {
        digits_val(s.drop_last()) * 10 + digit_val(s.last())
    }
}

/// A segment file name: eight decimal digits, then the segment suffix.
pub open spec fn is_segment_file_name(s: Seq<char>) -> bool {
    &&& s.len() == 12
    &&& (forall|i: int| 0 <= i < 8 ==> is_digit(#[trigger] s[i]))
    &&& s.subrange(8, 12) == ".bcd"@
}

/// Ten to the given power.
pub open spec fn pow10(n: nat) -> int
    decreases n,
{
    if n == 0 {
        1
    } else {
        10 * pow10((n - 1) as nat)
    }
}

/// Parses a segment file name, `NNNNNNNN.bcd`, to its sequence number.
/// Names of any other shape are rejected: they are not segment files.
pub fn parse_segment_file_name(name: &str) -> (r: Option<u64>)
    ensures
        match r {
            Some(v) => is_segment_file_name(name@) && v == digits_val(name@.subrange(0, 8)),
            None => !is_segment_file_name(name@),
        },
{
    proof {
        reveal_strlit(".bcd");
    }
    if name.unicode_len() != 12 {
        return None;
    }
    let mut value: u64 = 0;
    let mut i: usize = 0;
    proof {
        assert(name@.subrange(0, 0) =~= Seq::<char>::empty());
    }
    while i < 8
        invariant
            name@.len() == 12,
            i <= 8,
            forall|j: int| 0 <= j < i ==> is_digit(#[trigger] name@[j]),
            value == digits_val(name@.subrange(0, i as int)),
            value < pow10(i as nat),
        decreases 8 - i,
    {
        let c = name.get_char(i);
        let d = c as u32;
        if d < 48 || d > 57 {
            return None;
        }
        proof {
            assert(name@.subrange(0, i as int + 1).drop_last() =~= name@.subrange(0, i as int));
            assert(name@.subrange(0, i as int + 1).last() == name@[i as int]);
            assert(pow10(8) == 100000000) by {
                reveal_with_fuel(pow10, 9);
            }
            assert(pow10(i as nat) <= pow10(8)) by {
                lemma_pow10_le(i as nat, 8);
            }
        }
        value = value * 10 + (d - 48) as u64;
        i = i + 1;
    }
    if name.get_char(8) != '.' || name.get_char(9) != 'b' || name.get_char(10) != 'c'
        || name.get_char(11) != 'd' {
        proof {
            if name@.subrange(8, 12) == ".bcd"@ {
                assert(name@[8] == name@.subrange(8, 12)[0]);
                assert(name@[9] == name@.subrange(8, 12)[1]);
                assert(name@[10] == name@.subrange(8, 12)[2]);
                assert(name@[11] == name@.subrange(8, 12)[3]);
            }
        }
        return None;
    }
    proof {
        assert(name@.subrange(8, 12) =~= ".bcd"@);
    }
    Some(value)
}

/// Ten to a power never shrinks as the power grows.
proof fn lemma_pow10_le(a: nat, b: nat)
    requires
        a <= b,
    ensures
        pow10(a) <= pow10(b),
        pow10(a) >= 1,
    decreases b,
{
    if a < b {
        lemma_pow10_le(a, (b - 1) as nat);
    } else if b > 0 {
        lemma_pow10_le((a - 1) as nat, (b - 1) as nat);
    }
}

/// The global frame sequence after appending one record: the record joins
/// the end, at offset zero of a fresh segment when the active one stood past
/// the rollover threshold, at the end of the active segment otherwise.
pub open spec fn appended_frames(pre: KvStore, r: RecordView) -> Seq<SegFrame> {
    if pre.segs().last().data.len() > ROLLOVER_THRESHOLD {
        pre.frames().push(
            SegFrame { segment_id: (pre.largest_seq() + 1) as u64, off: 0, rec: r },
        )
    } else {
        pre.frames().push(
            SegFrame {
                segment_id: pre.segs().last().seq,
                off: pre.segs().last().data.len() as int,
                rec: r,
            },
        )
    }
}

/// How one append changes the store's layout: when the active segment stood
/// past the rollover threshold, a fresh segment numbered one past the
/// largest becomes the tail and holds the record's frame alone, and the
/// recorded largest advances; otherwise the frame extends the active
/// segment in place.  Either way every byte written before stands unchanged
/// and the record joins the end of the global frame sequence.
pub open spec fn appended(pre: KvStore, post: KvStore, r: RecordView) -> bool {
    &&& post.frames() == appended_frames(pre, r)
    &&& if pre.segs().last().data.len() > ROLLOVER_THRESHOLD {
        &&& post.largest_seq() == pre.largest_seq() + 1
        &&& post.segs() == pre.segs().push(
            SegView { seq: (pre.largest_seq() + 1) as u64, data: frame_of(r) },
        )
    } else {
        &&& post.largest_seq() == pre.largest_seq()
        &&& post.segs() == pre.segs().update(
            pre.segs().len() - 1,
            SegView {
                seq: pre.segs().last().seq,
                data: pre.segs().last().data + frame_of(r),
            },
        )
    }
}

/// The store engine: the segments, the key directory over them, the next
/// timestamp to issue, and the largest segment sequence number ever seen.
pub struct KvStore {
    counter: u64,
    keydir: KeyDir,
    segments: Vec<Segment>,
    largest_segment_seq: u64,
}

impl View for KvStore {
    type V = Map<Seq<char>, Seq<char>>;

    /// The key-to-value function the store denotes.
    closed spec fn view(&self) -> Map<Seq<char>, Seq<char>> {
        state_of(all_frames(self.segs()))
    }
}

impl KvStore {
    /// The segments the store holds, in storage order.
    pub closed spec fn segs(self) -> Seq<SegView> {
        seg_views(self.segments@)
    }

    /// Every record the store holds, in age order.
    pub open spec fn frames(self) -> Seq<SegFrame> {
        all_frames(self.segs())
    }

    /// The next timestamp to issue.
    pub closed spec fn counter(self) -> u64 {
        self.counter
    }

    /// The largest segment sequence number ever seen.
    pub closed spec fn largest_seq(self) -> u64 {
        self.largest_segment_seq
    }

    /// A record with this content stands in some segment.
    pub open spec fn contains_record(self, r: RecordView) -> bool {
        exists|i: int| 0 <= i < self.frames().len() && (#[trigger] self.frames()[i]).rec == r
    }

    /// The store's internal invariant: at least one segment; sequence
    /// numbers strictly ascending and bounded by the largest seen; every
    /// segment cleanly framed; the key directory is exactly what replaying
    /// the segments yields; and every timestamp lies below the counter.
    pub closed spec fn wf(self) -> bool {
        &&& self.counter >= 1
        &&& self.segments@.len() >= 1
        &&& (forall|i: int, j: int|
            #![trigger self.segs()[i], self.segs()[j]]
            0 <= i < j < self.segs().len() ==> self.segs()[i].seq < self.segs()[j].seq)
        &&& (forall|i: int|
            0 <= i < self.segs().len() ==> (#[trigger] self.segs()[i]).seq
                <= self.largest_segment_seq)
        &&& (forall|i: int| 0 <= i < self.segs().len() ==> well_framed((#[trigger] self.segs()[i]).data))
        &&& self.keydir.wf()
        &&& self.keydir@ == kd_of(self.frames())
        &&& (forall|i: int|
            0 <= i < self.frames().len() ==> (#[trigger] self.frames()[i]).rec.timestamp
                < self.counter)
    }

    /// The index of the segment that carries `id`.
    fn find_segment(&self, id: u64) -> (idx: usize)
        requires
            exists|si: int| 0 <= si < self.segs().len() && (#[trigger] self.segs()[si]).seq == id,
        ensures
            idx < self.segs().len(),
            self.segs()[idx as int].seq == id,
    {
        let n = self.segments.len();
        let mut i: usize = 0;
        while i < n
            invariant
                n == self.segments@.len(),
                i <= n,
                exists|si: int|
                    0 <= si < self.segs().len() && (#[trigger] self.segs()[si]).seq == id,
                forall|j: int| 0 <= j < i ==> (#[trigger] self.segs()[j]).seq != id,
            decreases n - i,
        {
            if self.segments[i].seq == id {
                return i;
            }
            i = i + 1;
        }
        proof {
            let si = choose|si: int|
                0 <= si < self.segs().len() && (#[trigger] self.segs()[si]).seq == id;
            assert(self.segs()[si].seq != id);
        }
        unreached()
    }

    /// Replays one segment: walks its frames in order, tracking the largest
    /// timestamp and folding each record into the key directory, then cuts
    /// off the unreadable tail.  A complete frame that does not decode is
    /// corruption.
    fn replay_segment(
        seg_id: u64,
        data: Vec<u8>,
        keydir: &mut KeyDir,
        max_ts: &mut u64,
        Ghost(prev): Ghost<Seq<SegFrame>>,
    ) -> (r: Result<Vec<u8>, KvsError>)
        requires
            old(keydir).wf(),
            old(keydir)@ == kd_of(prev),
            *old(max_ts) == max_timestamp(prev),
        ensures
            ({
                let sv = SegView { seq: seg_id, data: data@ };
                match r {
                    Ok(out) => {
                        &&& scan(data@).ok
                        &&& out@ == data@.take(scan(data@).end)
                        &&& final(keydir).wf()
                        &&& final(keydir)@ == kd_of(prev + seg_frames(sv))
                        &&& *final(max_ts) == max_timestamp(prev + seg_frames(sv))
                    },
                    Err(e) => e == KvsError::Io && !scan(data@).ok,
                }
            }),
    {
        let mut pos: usize = 0;
        let ghost mut done: Seq<FrameView> = Seq::empty();
        loop
            invariant
                pos <= data@.len(),
                keydir.wf(),
                scan(data@).frames == done + scan_from(data@, pos as int).frames,
                scan(data@).ok == scan_from(data@, pos as int).ok,
                scan(data@).end == scan_from(data@, pos as int).end,
                keydir@ == kd_of(prev + located(done, seg_id)),
                *max_ts == max_timestamp(prev + located(done, seg_id)),
            ensures
                scan(data@).ok,
                pos == scan(data@).end,
                keydir.wf(),
                keydir@ == kd_of(prev + seg_frames(SegView { seq: seg_id, data: data@ })),
                *max_ts == max_timestamp(
                    prev + seg_frames(SegView { seq: seg_id, data: data@ }),
                ),
            decreases data@.len() - pos,
        {
            let ghost d = data@;
            match read_record(data.as_slice(), pos) {
                ReadOutcome::Rec(rec, next) => {
                    let ghost fv = FrameView { off: pos as int, rec: rec@ };
                    let ghost sf = SegFrame { segment_id: seg_id, off: pos as int, rec: rec@ };
                    proof {
                        assert(scan_step(d, pos as int) == StepView::Rec(fv, next as int));
                        assert(scan_from(d, pos as int) == ScanView {
                            frames: seq![fv] + scan_from(d, next as int).frames,
                            end: scan_from(d, next as int).end,
                            ok: scan_from(d, next as int).ok,
                        });
                        lemma_replay_push(prev + located(done, seg_id), sf);
                        assert((prev + located(done, seg_id)).push(sf) =~= prev + located(
                            done.push(fv),
                            seg_id,
                        ));
                    }
                    if rec.timestamp > *max_ts {
                        *max_ts = rec.timestamp;
                    }
                    let info = KeyInfo {
                        segment_id: seg_id,
                        record_offset: pos as u64,
                        timestamp: rec.timestamp,
                    };
                    if rec.tombstone == 1 {
                        keydir.remove(&rec.key);
                    } else {
                        proof {
                            assert(info == info_of(sf));
                        }
                        keydir.insert(rec.key, info);
                    }
                    proof {
                        done = done.push(fv);
                        assert(scan(d).frames =~= done + scan_from(d, next as int).frames);
                    }
                    pos = next;
                },
                ReadOutcome::End => {
                    proof {
                        assert(done =~= scan(d).frames);
                        assert(located(done, seg_id) =~= seg_frames(
                            SegView { seq: seg_id, data: d },
                        ));
                    }
                    break ;
                },
                ReadOutcome::Corrupt => {
                    proof {
                        assert(scan_step(d, pos as int) == StepView::Corrupt);
                        assert(!scan_from(d, pos as int).ok);
                    }
                    return Err(KvsError::Io);
                },
            }
        }
        proof {
            lemma_scan_take_end(data@);
        }
        let mut out = data;
        out.truncate(pos);
        Ok(out)
    }

    /// Mounts the segments of a data directory: sorts them ascending by
    /// sequence number, replays each to rebuild the key directory, cuts any
    /// torn tail off, and resumes the counter past the largest persisted
    /// timestamp.  An empty list starts a fresh store with segment zero.  A
    /// corrupt record is refused with `Io`; a persisted timestamp at the
    /// counter's ceiling is refused with `Unknown`.
    pub fn open(segments: Vec<Segment>) -> (r: Result<KvStore, KvsError>)
        requires
            distinct_seqs(seg_views(segments@)),
        ensures
            ({
                let ss = sort_segs(seg_views(segments@));
                let fs = all_frames(ss);
                match r {
                    Ok(store) => {
                        &&& store.wf()
                        &&& all_scans_ok(ss)
                        &&& max_timestamp(fs) < u64::MAX
                        &&& store@ == state_of(fs)
                        &&& store.counter() == max_timestamp(fs) + 1
                        &&& (segments@.len() == 0 ==> store.segs() == seq![
                            SegView { seq: 0u64, data: Seq::<u8>::empty() },
                        ] && store.largest_seq() == 0)
                        &&& (segments@.len() > 0 ==> store.segs() == trim_segs(ss)
                            && store.largest_seq() == max_seq(ss))
                    },
                    Err(e) => {
                        &&& (e == KvsError::Io <==> !all_scans_ok(ss))
                        &&& (e == KvsError::Unknown ==> max_timestamp(fs) == u64::MAX)
                        &&& (e == KvsError::Io || e == KvsError::Unknown)
                    },
                }
            }),
    {
        let ghost ss = sort_segs(seg_views(segments@));
        proof {
            lemma_sort_segs(seg_views(segments@));
        }
        let mut sorted = sort_segments(segments);
        let n = sorted.len();
        if n == 0 {
            let mut segs: Vec<Segment> = Vec::new();
            segs.push(Segment { seq: 0, data: Vec::new() });
            let store = KvStore {
                counter: 1,
                keydir: KeyDir::new(),
                segments: segs,
                largest_segment_seq: 0,
            };
            proof {
                lemma_all_frames_push_empty(Seq::empty(), 0);
                assert(store.segs() =~= Seq::<SegView>::empty().push(
                    SegView { seq: 0u64, data: Seq::<u8>::empty() },
                ));
                assert(store.frames() =~= Seq::<SegFrame>::empty());
                assert(store.keydir@ =~= kd_of(store.frames()));
                assert(ss =~= Seq::<SegView>::empty());
                assert(all_frames(ss) =~= Seq::<SegFrame>::empty());
                assert(store@ =~= state_of(all_frames(ss)));
                assert(store.segs() =~= seq![SegView { seq: 0u64, data: Seq::<u8>::empty() }]);
            }
            return Ok(store);
        }
        let mut keydir = KeyDir::new();
        let mut max_ts: u64 = 0;
        let mut largest: u64 = 0;
        let mut out: Vec<Segment> = Vec::new();
        let mut si: usize = 0;
        proof {
            assert(ss.take(0) =~= Seq::<SegView>::empty());
            assert(all_frames(ss.take(0)) =~= Seq::<SegFrame>::empty());
        }
        while si < n
            invariant
                ss == sort_segs(seg_views(segments@)),
                distinct_seqs(seg_views(segments@)),
                n == ss.len(),
                si <= n,
                seg_views(sorted@) == ss.skip(si as int),
                sorted@.len() == n - si,
                keydir.wf(),
                keydir@ == kd_of(all_frames(ss.take(si as int))),
                max_ts == max_timestamp(all_frames(ss.take(si as int))),
                seg_views(out@) == trim_segs(ss.take(si as int)),
                out@.len() == si,
                largest == max_seq(ss.take(si as int)),
                forall|i: int| 0 <= i < si ==> scan((#[trigger] ss[i]).data).ok,
            decreases n - si,
        {
            let ghost pre_sorted = seg_views(sorted@);
            let seg = sorted.remove(0);
            proof {
                assert(seg@ == pre_sorted[0]);
                assert(seg@ == ss[si as int]);
                assert(seg_views(sorted@) =~= pre_sorted.skip(1));
                assert(pre_sorted.skip(1) =~= ss.skip(si as int + 1));
            }
            if seg.seq > largest {
                largest = seg.seq;
            }
            let ghost prev = all_frames(ss.take(si as int));
            let ghost sv = seg@;
            let Segment { seq: sid, data: sdata } = seg;
            match Self::replay_segment(sid, sdata, &mut keydir, &mut max_ts, Ghost(prev)) {
                Ok(trimmed) => {
                    let ghost pre_out = seg_views(out@);
                    out.push(Segment { seq: sid, data: trimmed });
                    proof {
                        assert(ss.take(si as int + 1).drop_last() =~= ss.take(si as int));
                        assert(ss.take(si as int + 1).last() == ss[si as int]);
                        assert(all_frames(ss.take(si as int + 1)) == prev + seg_frames(
                            ss[si as int],
                        ));
                        assert(seg_views(out@) =~= pre_out.push(trim_seg(ss[si as int])));
                        assert(trim_segs(ss.take(si as int + 1)) =~= trim_segs(
                            ss.take(si as int),
                        ).push(trim_seg(ss[si as int])));
                        assert(max_seq(ss.take(si as int + 1)) == largest);
                    }
                    si = si + 1;
                },
                Err(_) => {
                    proof {
                        assert(!scan(ss[si as int].data).ok);
                        assert(!all_scans_ok(ss));
                    }
                    return Err(KvsError::Io);
                },
            }
        }
        proof {
            assert(si == n);
            assert(ss.take(n as int) =~= ss);
            assert(all_frames(ss.take(n as int)) == all_frames(ss));
            assert(max_ts == max_timestamp(all_frames(ss)));
            assert(all_scans_ok(ss)) by {
                assert forall|i: int| 0 <= i < ss.len() implies scan(
                    (#[trigger] ss[i]).data,
                ).ok by {}
            }
        }
        if max_ts == u64::MAX {
            return Err(KvsError::Unknown);
        }
        let store = KvStore {
            counter: max_ts + 1,
            keydir,
            segments: out,
            largest_segment_seq: largest,
        };
        proof {
            lemma_trim_segs(ss);
            lemma_max_seq(ss);
            lemma_max_timestamp(all_frames(ss));
            assert(store.segs() == trim_segs(ss));
            assert(store.frames() == all_frames(ss));
            assert forall|i: int, j: int|
                #![trigger store.segs()[i], store.segs()[j]]
                0 <= i < j < store.segs().len() implies store.segs()[i].seq
                < store.segs()[j].seq by {
                assert(ss[i].seq <= ss[j].seq);
                assert(ss[i].seq != ss[j].seq);
                assert(store.segs()[i].seq == ss[i].seq);
                assert(store.segs()[j].seq == ss[j].seq);
            }
            assert forall|i: int|
                0 <= i < store.segs().len() implies (#[trigger] store.segs()[i]).seq
                <= store.largest_segment_seq by {
                assert(ss[i].seq <= max_seq(ss));
                assert(store.segs()[i].seq == ss[i].seq);
            }
        }
        Ok(store)
    }

    /// Looks a key up.  Returns the value of the key's most recent record,
    /// or nothing when the key was never set or was removed since.  The
    /// store's visible state does not change.
    pub fn get(&mut self, key: String) -> (r: Result<Option<String>, KvsError>)
        requires
            old(self).wf(),
        ensures
            *final(self) == *old(self),
            match r {
                Ok(opt) => match opt {
                    Some(v) => old(self)@.contains_key(key@) && v@ == old(self)@[key@],
                    None => !old(self)@.contains_key(key@),
                },
                Err(_) => false,
            },
    {
        let info = match self.keydir.get(&key) {
            None => {
                proof {
                    lemma_last_wins(self.frames(), key@);
                }
                return Ok(None);
            },
            Some(i) => *i,
        };
        let ghost fs = self.frames();
        let ghost w = proj(fs, key@).last();
        proof {
            lemma_last_wins(fs, key@);
            lemma_proj_props(fs, key@);
            assert(fs.contains(w));
            let fi = choose|fi: int| 0 <= fi < fs.len() && fs[fi] == w;
            lemma_frame_in_segment(self.segs(), fi);
        }
        let idx = self.find_segment(info.segment_id);
        let ghost data = self.segs()[idx as int].data;
        let ghost fv = FrameView { off: w.off, rec: w.rec };
        let dlen = self.segments[idx].data.len();
        proof {
            let si = choose|si: int|
                0 <= si < self.segs().len() && (#[trigger] self.segs()[si]).seq == w.segment_id
                    && scan(self.segs()[si].data).frames.contains(fv);
            assert(self.segs()[idx as int].seq == self.segs()[si].seq);
            if si != idx as int {
                assert(false);
            }
            assert(scan(data).frames.contains(fv));
            let fj = choose|fj: int| 0 <= fj < scan(data).frames.len() && scan(data).frames[fj] == fv;
            lemma_scan_from_props(data, 0);
            assert(frame_readable(data, scan(data).frames[fj], frame_next(scan(data), fj)));
            lemma_readable_step(data, fv, frame_next(scan(data), fj));
            assert(data.len() == dlen);
            assert(0 <= w.off <= dlen);
            assert(info == info_of(w));
            assert(info.record_offset == w.off as u64);
            assert(info.record_offset as int == w.off);
        }
        let pos = info.record_offset as usize;
        match read_record(self.segments[idx].data.as_slice(), pos) {
            ReadOutcome::Rec(rec, _next) => {
                proof {
                    assert(rec@ == w.rec);
                }
                Ok(Some(rec.value))
            },
            ReadOutcome::End => {
                proof {
                    assert(false);
                }
                unreached()
            },
            ReadOutcome::Corrupt => {
                proof {
                    assert(false);
                }
                unreached()
            },
        }
    }

    /// Whether the active segment has outgrown the rollover threshold.
    fn should_write_to_new_file(&self) -> (r: bool)
        requires
            self.segs().len() >= 1,
        ensures
            r == (self.segs().last().data.len() > ROLLOVER_THRESHOLD),
    {
        let n = self.segments.len();
        self.segments[n - 1].data.len() > ROLLOVER_THRESHOLD
    }

    /// Starts a fresh active segment when the current one has outgrown the
    /// rollover threshold.  The store's contents do not change.
    fn maybe_rollover(&mut self)
        requires
            old(self).wf(),
            old(self).largest_seq() < u64::MAX,
        ensures
            final(self).wf(),
            final(self).segs().len() >= 1,
            final(self).frames() == old(self).frames(),
            final(self)@ == old(self)@,
            final(self).counter() == old(self).counter(),
            final(self).keydir@ == old(self).keydir@,
            old(self).segs().last().data.len() > ROLLOVER_THRESHOLD ==> {
                &&& final(self).largest_seq() == old(self).largest_seq() + 1
                &&& final(self).segs() == old(self).segs().push(
                    SegView {
                        seq: (old(self).largest_seq() + 1) as u64,
                        data: Seq::<u8>::empty(),
                    },
                )
            },
            old(self).segs().last().data.len() <= ROLLOVER_THRESHOLD ==> *final(self) == *old(
                self,
            ),
    {
        if self.should_write_to_new_file() {
            self.largest_segment_seq = self.largest_segment_seq + 1;
            let seg = Segment { seq: self.largest_segment_seq, data: Vec::new() };
            let ghost pre = self.segs();
            self.segments.push(seg);
            proof {
                lemma_all_frames_push_empty(pre, self.largest_segment_seq);
                assert(self.segs() =~= pre.push(
                    SegView { seq: self.largest_segment_seq, data: Seq::empty() },
                ));
                assert(self.frames() == old(self).frames());
            }
        }
    }

    /// Appends a put record for `key` at the tail of the active segment
    /// (rolling over first if the active segment is full), then binds the
    /// key in the key directory and advances the counter.
    pub fn set(&mut self, key: String, value: String) -> (r: Result<(), KvsError>)
        requires
            old(self).wf(),
            old(self).counter() < u64::MAX,
            old(self).largest_seq() < u64::MAX,
            key@.len() <= MAX_TEXT_LEN,
            value@.len() <= MAX_TEXT_LEN,
        ensures
            r is Ok,
            final(self).wf(),
            final(self)@ == old(self)@.insert(key@, value@),
            final(self).counter() == old(self).counter() + 1,
            final(self).largest_seq() <= old(self).largest_seq() + 1,
            final(self).segs().len() <= old(self).segs().len() + 1,
            final(self).contains_record(
                RecordView {
                    timestamp: old(self).counter(),
                    tombstone: 0,
                    key: key@,
                    value: value@,
                },
            ),
            ({
                let rv = RecordView {
                    timestamp: old(self).counter(),
                    tombstone: 0,
                    key: key@,
                    value: value@,
                };
                let rolled: int = if old(self).segs().last().data.len() > ROLLOVER_THRESHOLD {
                    1
                } else {
                    0
                };
                &&& (old(self).segs().len() + rolled <= COMPACTION_THRESHOLD ==> appended(
                    *old(self),
                    *final(self),
                    rv,
                ))
                &&& (old(self).segs().len() + rolled > COMPACTION_THRESHOLD ==> recs_of(
                    final(self).frames(),
                ) == keep_live(
                    appended_frames(*old(self), rv),
                    kd_of(appended_frames(*old(self), rv)),
                ))
            }),
    {
        self.maybe_rollover();
        let rec = Record { timestamp: self.counter, tombstone: 0, key: key.clone(), value };
        let ghost pre = self.segs();
        let mut seg = self.segments.pop().unwrap();
        let off = append_frame(&mut seg.data, &rec);
        let seg_id = seg.seq;
        self.segments.push(seg);
        let ghost newf = SegFrame {
            segment_id: pre.last().seq,
            off: pre.last().data.len() as int,
            rec: rec@,
        };
        proof {
            lemma_all_frames_append_active(pre, rec@);
            assert(self.segs() =~= pre.update(
                pre.len() - 1,
                SegView { seq: pre.last().seq, data: pre.last().data + frame_of(rec@) },
            ));
            assert(self.frames() == all_frames(pre).push(newf));
        }
        let info = KeyInfo {
            segment_id: seg_id,
            record_offset: off as u64,
            timestamp: self.counter,
        };
        proof {
            assert(self.keydir@ == kd_of(all_frames(pre)));
            lemma_replay_push(all_frames(pre), newf);
        }
        self.keydir.insert(key, info);
        self.counter = self.counter + 1;
        proof {
            assert(info == info_of(newf));
            assert(self.keydir@ =~= kd_of(self.frames()));
            assert forall|i: int|
                0 <= i < self.frames().len() implies (#[trigger] self.frames()[i]).rec.timestamp
                < self.counter by {
                if i < self.frames().len() - 1 {
                    assert(all_frames(pre)[i] == self.frames()[i]);
                }
            }
            assert(self@ =~= old(self)@.insert(key@, value@));
            assert(self.frames()[self.frames().len() - 1].rec == RecordView {
                timestamp: old(self).counter(),
                tombstone: 0,
                key: key@,
                value: value@,
            });
            if old(self).segs().last().data.len() > ROLLOVER_THRESHOLD {
                assert(Seq::<u8>::empty() + frame_of(rec@) =~= frame_of(rec@));
                assert(self.segs() =~= old(self).segs().push(
                    SegView {
                        seq: (old(self).largest_seq() + 1) as u64,
                        data: frame_of(rec@),
                    },
                ));
                assert(self.segments@.len() == old(self).segs().len() + 1);
            } else {
                assert(self.segments@.len() == old(self).segs().len());
            }
            assert(appended(*old(self), *self, rec@));
        }
        if self.segments.len() > COMPACTION_THRESHOLD {
            let ghost mid = *self;
            proof {
                let fs2 = mid.frames();
                assert(fs2 == appended_frames(*old(self), rec@));
                assert(kd_of(fs2) == mid.keydir@);
                assert(kd_of(fs2)[key@] == info_of(newf));
                assert(is_live(fs2[fs2.len() - 1], kd_of(fs2)));
                lemma_live_kept(fs2, kd_of(fs2), fs2.len() - 1);
            }
            self.compaction();
            proof {
                let kl = keep_live(mid.frames(), kd_of(mid.frames()));
                assert(kl.contains(newf.rec));
                let j = choose|j: int| 0 <= j < kl.len() && kl[j] == newf.rec;
                assert(recs_of(self.frames())[j] == newf.rec);
                assert(self.frames()[j].rec == newf.rec);
            }
        }
        Ok(())
    }

    /// Appends a tombstone record for `key` (rolling over first if needed),
    /// unbinds the key and advances the counter.  A key that is not live
    /// fails with `KeyNotFound` and writes nothing.
    pub fn remove(&mut self, key: String) -> (r: Result<(), KvsError>)
        requires
            old(self).wf(),
            old(self).counter() < u64::MAX,
            old(self).largest_seq() < u64::MAX,
            key@.len() <= MAX_TEXT_LEN,
        ensures
            final(self).wf(),
            old(self)@.contains_key(key@) ==> {
                &&& r is Ok
                &&& final(self)@ == old(self)@.remove(key@)
                &&& final(self).counter() == old(self).counter() + 1
                &&& appended(
                    *old(self),
                    *final(self),
                    RecordView {
                        timestamp: old(self).counter(),
                        tombstone: 1,
                        key: key@,
                        value: Seq::empty(),
                    },
                )
                &&& final(self).contains_record(
                    RecordView {
                        timestamp: old(self).counter(),
                        tombstone: 1,
                        key: key@,
                        value: Seq::empty(),
                    },
                )
            },
            !old(self)@.contains_key(key@) ==> r == Err::<(), KvsError>(KvsError::KeyNotFound)
                && *final(self) == *old(self),
    {
        proof {
            lemma_last_wins(old(self).frames(), key@);
        }
        if self.keydir.get(&key).is_none() {
            return Err(KvsError::KeyNotFound);
        }
        self.maybe_rollover();
        let rec = Record {
            timestamp: self.counter,
            tombstone: 1,
            key: key.clone(),
            value: String::new(),
        };
        let ghost pre = self.segs();
        let mut seg = self.segments.pop().unwrap();
        let off = append_frame(&mut seg.data, &rec);
        self.segments.push(seg);
        let ghost newf = SegFrame {
            segment_id: pre.last().seq,
            off: pre.last().data.len() as int,
            rec: rec@,
        };
        proof {
            lemma_all_frames_append_active(pre, rec@);
            assert(self.segs() =~= pre.update(
                pre.len() - 1,
                SegView { seq: pre.last().seq, data: pre.last().data + frame_of(rec@) },
            ));
            assert(self.frames() == all_frames(pre).push(newf));
        }
        proof {
            assert(self.keydir@ == kd_of(all_frames(pre)));
            lemma_replay_push(all_frames(pre), newf);
        }
        self.keydir.remove(&key);
        self.counter = self.counter + 1;
        proof {
            assert(self.keydir@ =~= kd_of(self.frames()));
            assert forall|i: int|
                0 <= i < self.frames().len() implies (#[trigger] self.frames()[i]).rec.timestamp
                < self.counter by {
                if i < self.frames().len() - 1 {
                    assert(all_frames(pre)[i] == self.frames()[i]);
                }
            }
            assert(self@ =~= old(self)@.remove(key@));
            assert(self.frames()[self.frames().len() - 1].rec == RecordView {
                timestamp: old(self).counter(),
                tombstone: 1,
                key: key@,
                value: Seq::empty(),
            });
            if old(self).segs().last().data.len() > ROLLOVER_THRESHOLD {
                assert(Seq::<u8>::empty() + frame_of(rec@) =~= frame_of(rec@));
                assert(self.segs() =~= old(self).segs().push(
                    SegView {
                        seq: (old(self).largest_seq() + 1) as u64,
                        data: frame_of(rec@),
                    },
                ));
            }
            assert(appended(*old(self), *self, rec@));
        }
        Ok(())
    }

    /// How many keys are live.
    pub fn num_keys(&self) -> (n: usize)
        requires
            self.wf(),
        ensures
            self@.dom().finite(),
            n == self@.dom().len(),
    {
        proof {
            assert forall|k: Seq<char>|
                #![trigger self@.dom().contains(k)]
                #![trigger self.keydir@.dom().contains(k)]
                self@.dom().contains(k) == self.keydir@.dom().contains(k) by {
                lemma_last_wins(self.frames(), k);
            }
            assert(self@.dom() =~= self.keydir@.dom());
        }
        self.keydir.len()
    }

    /// The timestamp the next mutation will carry.
    pub fn next_timestamp(&self) -> (t: u64)
        ensures
            t == self.counter(),
    {
        self.counter
    }

    /// The largest segment sequence number ever seen.
    pub fn largest_segment(&self) -> (s: u64)
        ensures
            s == self.largest_seq(),
    {
        self.largest_segment_seq
    }

    /// Hands the segments out, for persisting them or reopening them later.
    pub fn into_segments(self) -> (r: Vec<Segment>)
        ensures
            seg_views(r@) == self.segs(),
    {
        self.segments
    }

    /// How many segments the store holds.
    pub fn num_segments(&self) -> (n: usize)
        ensures
            n == self.segs().len(),
    {
        self.segments.len()
    }

    /// Rewrites the segments so that only live records remain: each live
    /// record's frame bytes are copied unchanged into fresh segments that
    /// reuse a prefix of the old sequence numbers and are capped at the
    /// rollover size, and the key directory is rebuilt to point at the new
    /// locations.  The observable state does not change.
    fn compaction(&mut self)
        requires
            old(self).wf(),
        ensures
            final(self).wf(),
            final(self)@ == old(self)@,
            final(self).counter() == old(self).counter(),
            final(self).largest_seq() == old(self).largest_seq(),
            final(self).segs().len() <= old(self).segs().len(),
            recs_of(final(self).frames()) == keep_live(
                old(self).frames(),
                kd_of(old(self).frames()),
            ),
    {
        let ghost m = self.keydir@;
        let ghost oldsegs = self.segs();
        let n = self.segments.len();
        let mut outputs: Vec<Segment> = Vec::new();
        let mut current: Vec<u8> = Vec::new();
        let mut out_idx: usize = 0;
        let mut cur_seq: u64 = self.segments[0].seq;
        let mut newkd = KeyDir::new();
        let mut si: usize = 0;
        proof {
            assert(oldsegs.take(0) =~= Seq::<SegView>::empty());
            assert(all_frames(oldsegs.take(0)) =~= Seq::<SegFrame>::empty());
            assert(seg_views(outputs@) =~= Seq::<SegView>::empty());
            lemma_all_frames_push_empty(Seq::empty(), cur_seq);
            assert(seg_views(outputs@).push(SegView { seq: cur_seq, data: current@ })
                =~= Seq::<SegView>::empty().push(SegView { seq: cur_seq, data: Seq::empty() }));
            assert(scan(Seq::<u8>::empty()).end == 0);
        }
        while si < n
            invariant
                old(self).wf(),
                *self == *old(self),
                oldsegs == self.segs(),
                m == self.keydir@,
                m == kd_of(all_frames(oldsegs)),
                n == self.segments@.len(),
                n >= 1,
                si <= n,
                out_idx < n,
                outputs@.len() == out_idx,
                cur_seq == oldsegs[out_idx as int].seq,
                forall|i: int|
                    0 <= i < out_idx ==> (#[trigger] seg_views(outputs@)[i]).seq == oldsegs[i].seq
                        && well_framed(seg_views(outputs@)[i].data),
                well_framed(current@),
                newkd.wf(),
                newkd@ == kd_of(
                    all_frames(seg_views(outputs@).push(SegView { seq: cur_seq, data: current@ })),
                ),
                recs_of(
                    all_frames(seg_views(outputs@).push(SegView { seq: cur_seq, data: current@ })),
                ) == keep_live(all_frames(oldsegs.take(si as int)), m),
            decreases n - si,
        {
            let mut pos: usize = 0;
            let ghost d = oldsegs[si as int].data;
            let ghost sid = oldsegs[si as int].seq;
            let ghost mut done: Seq<FrameView> = Seq::empty();
            proof {
                assert(well_framed(d));
            }
            loop
                invariant
                    old(self).wf(),
                    *self == *old(self),
                    oldsegs == self.segs(),
                    m == self.keydir@,
                    m == kd_of(all_frames(oldsegs)),
                    n == self.segments@.len(),
                    si < n,
                    d == oldsegs[si as int].data,
                    sid == oldsegs[si as int].seq,
                    well_framed(d),
                    pos <= d.len(),
                    scan(d).frames == done + scan_from(d, pos as int).frames,
                    scan(d).end == scan_from(d, pos as int).end,
                    scan(d).ok == scan_from(d, pos as int).ok,
                    out_idx < n,
                    outputs@.len() == out_idx,
                    cur_seq == oldsegs[out_idx as int].seq,
                    forall|i: int|
                        0 <= i < out_idx ==> (#[trigger] seg_views(outputs@)[i]).seq == oldsegs[i].seq
                            && well_framed(seg_views(outputs@)[i].data),
                    well_framed(current@),
                    newkd.wf(),
                    newkd@ == kd_of(
                        all_frames(
                            seg_views(outputs@).push(SegView { seq: cur_seq, data: current@ }),
                        ),
                    ),
                    recs_of(
                        all_frames(
                            seg_views(outputs@).push(SegView { seq: cur_seq, data: current@ }),
                        ),
                    ) == keep_live(
                        all_frames(oldsegs.take(si as int)) + located(done, sid),
                        m,
                    ),
                ensures
                    done == scan(d).frames,
                    out_idx < n,
                    outputs@.len() == out_idx,
                    cur_seq == oldsegs[out_idx as int].seq,
                    forall|i: int|
                        0 <= i < out_idx ==> (#[trigger] seg_views(outputs@)[i]).seq == oldsegs[i].seq
                            && well_framed(seg_views(outputs@)[i].data),
                    well_framed(current@),
                    newkd.wf(),
                    newkd@ == kd_of(
                        all_frames(
                            seg_views(outputs@).push(SegView { seq: cur_seq, data: current@ }),
                        ),
                    ),
                    recs_of(
                        all_frames(
                            seg_views(outputs@).push(SegView { seq: cur_seq, data: current@ }),
                        ),
                    ) == keep_live(
                        all_frames(oldsegs.take(si as int)) + located(done, sid),
                        m,
                    ),
                decreases d.len() - pos,
            {
                match read_record(self.segments[si].data.as_slice(), pos) {
                    ReadOutcome::Rec(rec, next) => {
                        let ghost fv = FrameView { off: pos as int, rec: rec@ };
                        let ghost sf = SegFrame { segment_id: sid, off: pos as int, rec: rec@ };
                        let ghost processed = all_frames(oldsegs.take(si as int)) + located(
                            done,
                            sid,
                        );
                        proof {
                            assert(scan_step(d, pos as int) == StepView::Rec(fv, next as int));
                            assert(scan_from(d, pos as int) == ScanView {
                                frames: seq![fv] + scan_from(d, next as int).frames,
                                end: scan_from(d, next as int).end,
                                ok: scan_from(d, next as int).ok,
                            });
                            lemma_keep_live_push(processed, m, sf);
                            assert(processed.push(sf) =~= all_frames(oldsegs.take(si as int))
                                + located(done.push(fv), sid));
                        }
                        let mut live = false;
                        if rec.tombstone != 1 {
                            match self.keydir.get(&rec.key) {
                                Some(info) => {
                                    if info.timestamp == rec.timestamp {
                                        live = true;
                                    }
                                },
                                None => {},
                            }
                        }
                        proof {
                            assert(live == is_live(sf, m));
                        }
                        if live {
                            let ghost osegs_pre = seg_views(outputs@).push(
                                SegView { seq: cur_seq, data: current@ },
                            );
                            // copy the record's frame bytes unchanged
                            let off = current.len();
                            let frame_slice = slice_subrange(
                                self.segments[si].data.as_slice(),
                                pos,
                                next,
                            );
                            let mut chunk = slice_to_vec(frame_slice);
                            current.append(&mut chunk);
                            let ghost p = d.subrange(pos as int + 8, next as int);
                            let ghost newsf = SegFrame {
                                segment_id: cur_seq,
                                off: off as int,
                                rec: rec@,
                            };
                            proof {
                                lemma_u64_be_bytes_roundtrip_rev(
                                    d.subrange(pos as int, pos as int + 8),
                                );
                                assert(p.len() as u64 == spec_u64_from_be_bytes(
                                    d.subrange(pos as int, pos as int + 8),
                                ));
                                assert(d.subrange(pos as int, next as int) =~= frame_bytes(p));
                                assert(payload_decode_rec(p) == Some(rec@));
                                lemma_all_frames_append_bytes(osegs_pre, p, rec@);
                                assert(current@ =~= osegs_pre.last().data + frame_bytes(p));
                                assert(seg_views(outputs@).push(
                                    SegView { seq: cur_seq, data: current@ },
                                ) =~= osegs_pre.update(
                                    osegs_pre.len() - 1,
                                    SegView {
                                        seq: cur_seq,
                                        data: osegs_pre.last().data + frame_bytes(p),
                                    },
                                ));
                                lemma_replay_push(all_frames(osegs_pre), newsf);
                            }
                            let info2 = KeyInfo {
                                segment_id: cur_seq,
                                record_offset: off as u64,
                                timestamp: rec.timestamp,
                            };
                            newkd.insert(rec.key, info2);
                            proof {
                                assert(info2 == info_of(newsf));
                                assert(newkd@ =~= kd_of(
                                    all_frames(
                                        seg_views(outputs@).push(
                                            SegView { seq: cur_seq, data: current@ },
                                        ),
                                    ),
                                ));
                                assert(recs_of(all_frames(osegs_pre).push(newsf)) =~= recs_of(
                                    all_frames(osegs_pre),
                                ).push(rec@));
                                assert(recs_of(
                                    all_frames(
                                        seg_views(outputs@).push(
                                            SegView { seq: cur_seq, data: current@ },
                                        ),
                                    ),
                                ) =~= keep_live(processed.push(sf), m));
                            }
                            if current.len() > ROLLOVER_THRESHOLD && out_idx + 1 < n {
                                let ghost osegs_now = seg_views(outputs@).push(
                                    SegView { seq: cur_seq, data: current@ },
                                );
                                outputs.push(Segment { seq: cur_seq, data: current });
                                current = Vec::new();
                                out_idx = out_idx + 1;
                                cur_seq = self.segments[out_idx].seq;
                                proof {
                                    assert(seg_views(outputs@) =~= osegs_now);
                                    lemma_all_frames_push_empty(seg_views(outputs@), cur_seq);
                                    assert(seg_views(outputs@).push(
                                        SegView { seq: cur_seq, data: current@ },
                                    ) =~= seg_views(outputs@).push(
                                        SegView { seq: cur_seq, data: Seq::empty() },
                                    ));
                                    assert(scan(Seq::<u8>::empty()).end == 0);
                                }
                            }
                        }
                        proof {
                            done = done.push(fv);
                            assert(scan(d).frames =~= done + scan_from(d, next as int).frames);
                        }
                        pos = next;
                    },
                    ReadOutcome::End => {
                        proof {
                            assert(done =~= scan(d).frames);
                        }
                        break ;
                    },
                    ReadOutcome::Corrupt => {
                        proof {
                            assert(!scan_from(d, pos as int).ok);
                            assert(false);
                        }
                        break ;
                    },
                }
            }
            proof {
                assert(located(done, sid) =~= seg_frames(oldsegs[si as int]));
                assert(oldsegs.take(si as int + 1).drop_last() =~= oldsegs.take(si as int));
                assert(oldsegs.take(si as int + 1).last() == oldsegs[si as int]);
                assert(all_frames(oldsegs.take(si as int + 1)) == all_frames(
                    oldsegs.take(si as int),
                ) + seg_frames(oldsegs[si as int]));
            }
            si = si + 1;
        }
        let ghost osegs_final = seg_views(outputs@).push(SegView { seq: cur_seq, data: current@ });
        outputs.push(Segment { seq: cur_seq, data: current });
        proof {
            assert(seg_views(outputs@) =~= osegs_final);
            assert(oldsegs.take(n as int) =~= oldsegs);
        }
        self.segments = outputs;
        self.keydir = newkd;
        proof {
            let fs = all_frames(oldsegs);
            let gs = all_frames(self.segs());
            assert(recs_of(gs) == keep_live(fs, m));
            lemma_compaction_preserves(fs, gs);
            assert forall|i: int, j: int|
                #![trigger self.segs()[i], self.segs()[j]]
                0 <= i < j < self.segs().len() implies self.segs()[i].seq
                < self.segs()[j].seq by {
                assert(self.segs()[i].seq == oldsegs[i].seq);
                assert(self.segs()[j].seq == oldsegs[j].seq);
                assert(oldsegs[i].seq < oldsegs[j].seq);
            }
            assert forall|i: int|
                0 <= i < self.segs().len() implies (#[trigger] self.segs()[i]).seq
                <= self.largest_segment_seq by {
                assert(self.segs()[i].seq == oldsegs[i].seq);
                assert(oldsegs[i].seq <= old(self).largest_seq());
            }
            assert forall|i: int|
                0 <= i < self.frames().len() implies (#[trigger] self.frames()[i]).rec.timestamp
                < self.counter by {
                assert(recs_of(gs)[i] == gs[i].rec);
                lemma_keep_live_sub(fs, m, i);
                let j = choose|j: int|
                    0 <= j < fs.len() && keep_live(fs, m)[i] == (#[trigger] fs[j]).rec && is_live(
                        fs[j],
                        m,
                    );
                assert(fs[j].rec.timestamp < self.counter);
            }
            assert(self@ =~= old(self)@);
        }
    }
}

} // verus!
