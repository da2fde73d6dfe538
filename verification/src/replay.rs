//! The mathematical model of a segment set: the records it holds in age
//! order, the key directory they denote, and the key-to-value state they
//! denote.  Replaying is folding the record sequence: a put binds its key, a
//! tombstone unbinds it; later records win.

use crate::frame::{scan, well_framed, FrameView};
use crate::keydir::KeyInfo;
use crate::record::RecordView;
use vstd::prelude::*;

verus! {

/// A segment as mathematics: its sequence number and its bytes.
pub struct SegView {
    pub seq: u64,
    pub data: Seq<u8>,
}

/// A record located globally: which segment holds it, at which offset.
pub struct SegFrame {
    pub segment_id: u64,
    pub off: int,
    pub rec: RecordView,
}

/// Frames tagged with the segment that holds them.
pub open spec fn located(frames: Seq<FrameView>, id: u64) -> Seq<SegFrame> {
    frames.map_values(|f: FrameView| SegFrame { segment_id: id, off: f.off, rec: f.rec })
}

/// The frames of one segment, tagged with its sequence number.
pub open spec fn seg_frames(s: SegView) -> Seq<SegFrame> {
    located(scan(s.data).frames, s.seq)
}

/// All frames of a segment list, in age order.
pub open spec fn all_frames(segs: Seq<SegView>) -> Seq<SegFrame>
    decreases segs.len(),
{
    if segs.len() == 0 {
        seq![]
    } else {
        all_frames(segs.drop_last()) + seg_frames(segs.last())
    }
}

/// The record contents of located frames.
pub open spec fn recs_of(fs: Seq<SegFrame>) -> Seq<RecordView> {
    fs.map_values(|f: SegFrame| f.rec)
}

/// The key directory entry a frame denotes.
pub open spec fn info_of(f: SegFrame) -> KeyInfo {
    KeyInfo { segment_id: f.segment_id, record_offset: f.off as u64, timestamp: f.rec.timestamp }
}

/// The key directory that a frame sequence denotes.
pub open spec fn kd_of(fs: Seq<SegFrame>) -> Map<Seq<char>, KeyInfo>
    decreases fs.len(),
{
    if fs.len() == 0 {
        Map::empty()
    } else {
        let m = kd_of(fs.drop_last());
        let f = fs.last();
        if f.rec.tombstone == 1 {
            m.remove(f.rec.key)
        } else {
            m.insert(f.rec.key, info_of(f))
        }
    }
}

/// The key-to-value state that a frame sequence denotes.
pub open spec fn state_of(fs: Seq<SegFrame>) -> Map<Seq<char>, Seq<char>>
    decreases fs.len(),
{
    if fs.len() == 0 {
        Map::empty()
    } else {
        let m = state_of(fs.drop_last());
        let f = fs.last();
        if f.rec.tombstone == 1 {
            m.remove(f.rec.key)
        } else {
            m.insert(f.rec.key, f.rec.value)
        }
    }
}

/// Replaying one more frame updates the directory and the state pointwise.
pub proof fn lemma_replay_push(fs: Seq<SegFrame>, f: SegFrame)
    ensures
        kd_of(fs.push(f)) == if f.rec.tombstone == 1 {
            kd_of(fs).remove(f.rec.key)
        } else {
            kd_of(fs).insert(f.rec.key, info_of(f))
        },
        state_of(fs.push(f)) == if f.rec.tombstone == 1 {
            state_of(fs).remove(f.rec.key)
        } else {
            state_of(fs).insert(f.rec.key, f.rec.value)
        },
        max_timestamp(fs.push(f)) == if f.rec.timestamp > max_timestamp(fs) {
            f.rec.timestamp
        } else {
            max_timestamp(fs)
        },
{
    assert(fs.push(f).drop_last() =~= fs);
    assert(fs.push(f).last() == f);
}

/// The frames that carry one key, in order.
pub open spec fn proj(fs: Seq<SegFrame>, k: Seq<char>) -> Seq<SegFrame>
    decreases fs.len(),
{
    if fs.len() == 0 {
        seq![]
    } else {
        let p = proj(fs.drop_last(), k);
        if fs.last().rec.key == k {
            p.push(fs.last())
        } else {
            p
        }
    }
}

/// Projected frames carry the key and come from the sequence.
pub proof fn lemma_proj_props(fs: Seq<SegFrame>, k: Seq<char>)
    ensures
        forall|i: int|
            0 <= i < proj(fs, k).len() ==> (#[trigger] proj(fs, k)[i]).rec.key == k && fs.contains(
                proj(fs, k)[i],
            ),
    decreases fs.len(),
{
    if fs.len() > 0 {
        lemma_proj_props(fs.drop_last(), k);
        assert forall|i: int|
            0 <= i < proj(fs, k).len() implies (#[trigger] proj(fs, k)[i]).rec.key == k
            && fs.contains(proj(fs, k)[i]) by {
            if i < proj(fs.drop_last(), k).len() {
                assert(fs.drop_last().contains(proj(fs.drop_last(), k)[i]));
                let j = choose|j: int|
                    0 <= j < fs.drop_last().len() && fs.drop_last()[j] == proj(fs.drop_last(), k)[i];
                assert(fs[j] == proj(fs, k)[i]);
            } else {
                assert(fs[fs.len() - 1] == proj(fs, k)[i]);
            }
        }
    }
}

/// Last writer wins: what the key directory and the state hold at a key is
/// decided by the last record that carries the key, and by nothing else.
pub proof fn lemma_last_wins(fs: Seq<SegFrame>, k: Seq<char>)
    ensures
        kd_of(fs).contains_key(k) <==> (proj(fs, k).len() > 0 && proj(fs, k).last().rec.tombstone
            != 1),
        state_of(fs).contains_key(k) <==> kd_of(fs).contains_key(k),
        kd_of(fs).contains_key(k) ==> {
            let w = proj(fs, k).last();
            &&& w.rec.key == k
            &&& kd_of(fs)[k] == info_of(w)
            &&& state_of(fs)[k] == w.rec.value
        },
    decreases fs.len(),
{
    if fs.len() > 0 {
        lemma_last_wins(fs.drop_last(), k);
    }
}

/// Every frame of a segment list lies in a segment that carries its id.
pub proof fn lemma_frame_in_segment(segs: Seq<SegView>, i: int)
    requires
        0 <= i < all_frames(segs).len(),
    ensures
        ({
            let f = all_frames(segs)[i];
            exists|si: int|
                0 <= si < segs.len() && (#[trigger] segs[si]).seq == f.segment_id && scan(
                    segs[si].data,
                ).frames.contains(FrameView { off: f.off, rec: f.rec })
        }),
    decreases segs.len(),
{
    let f = all_frames(segs)[i];
    let prev = all_frames(segs.drop_last());
    if i < prev.len() {
        lemma_frame_in_segment(segs.drop_last(), i);
        let si = choose|si: int|
            0 <= si < segs.drop_last().len() && (#[trigger] segs.drop_last()[si]).seq
                == f.segment_id && scan(segs.drop_last()[si].data).frames.contains(
                FrameView { off: f.off, rec: f.rec },
            );
        assert(segs[si] == segs.drop_last()[si]);
    } else {
        let j = i - prev.len();
        let s = segs.last();
        assert(f == seg_frames(s)[j]);
        assert(scan(s.data).frames[j] == FrameView { off: f.off, rec: f.rec });
        assert(segs[segs.len() - 1] == s);
    }
}

/// Appending a frame to the last segment appends it to the global frames.
/// The payload may be any bytes that decode to the record.
pub proof fn lemma_all_frames_append_bytes(segs: Seq<SegView>, payload: Seq<u8>, r: RecordView)
    requires
        segs.len() > 0,
        well_framed(segs.last().data),
        crate::record::payload_decode_rec(payload) == Some(r),
        payload.len() <= u64::MAX,
    ensures
        ({
            let s2 = segs.update(
                segs.len() - 1,
                SegView {
                    seq: segs.last().seq,
                    data: segs.last().data + crate::frame::frame_bytes(payload),
                },
            );
            &&& all_frames(s2) == all_frames(segs).push(
                SegFrame {
                    segment_id: segs.last().seq,
                    off: segs.last().data.len() as int,
                    rec: r,
                },
            )
            &&& well_framed(s2.last().data)
        }),
{
    crate::frame::lemma_scan_append_bytes(segs.last().data, payload, r);
    let s2 = segs.update(
        segs.len() - 1,
        SegView {
            seq: segs.last().seq,
            data: segs.last().data + crate::frame::frame_bytes(payload),
        },
    );
    let newf = SegFrame {
        segment_id: segs.last().seq,
        off: segs.last().data.len() as int,
        rec: r,
    };
    assert(s2.drop_last() =~= segs.drop_last());
    assert(seg_frames(s2.last()) =~= seg_frames(segs.last()).push(newf));
    assert(all_frames(s2) =~= all_frames(segs).push(newf));
}

/// `lemma_all_frames_append_bytes` for a record in its canonical encoding.
pub proof fn lemma_all_frames_append_active(segs: Seq<SegView>, r: RecordView)
    requires
        segs.len() > 0,
        well_framed(segs.last().data),
        crate::record::payload_decode_rec(crate::record::payload_of_rec(r)) == Some(r),
        crate::record::payload_of_rec(r).len() <= u64::MAX,
    ensures
        ({
            let s2 = segs.update(
                segs.len() - 1,
                SegView {
                    seq: segs.last().seq,
                    data: segs.last().data + crate::frame::frame_of(r),
                },
            );
            &&& all_frames(s2) == all_frames(segs).push(
                SegFrame {
                    segment_id: segs.last().seq,
                    off: segs.last().data.len() as int,
                    rec: r,
                },
            )
            &&& well_framed(s2.last().data)
        }),
{
    lemma_all_frames_append_bytes(segs, crate::record::payload_of_rec(r), r);
}

/// Appending an empty segment adds no frames.
pub proof fn lemma_all_frames_push_empty(segs: Seq<SegView>, seq_id: u64)
    ensures
        all_frames(segs.push(SegView { seq: seq_id, data: Seq::empty() })) == all_frames(segs),
        well_framed(Seq::<u8>::empty()),
{
    let s = SegView { seq: seq_id, data: Seq::empty() };
    assert(scan(s.data).frames =~= Seq::<FrameView>::empty());
    assert(seg_frames(s) =~= Seq::<SegFrame>::empty());
    assert(segs.push(s).drop_last() =~= segs);
    assert(all_frames(segs.push(s)) =~= all_frames(segs));
}

/// The largest timestamp among the frames; zero when there are none.
pub open spec fn max_timestamp(fs: Seq<SegFrame>) -> u64
    decreases fs.len(),
{
    if fs.len() == 0 {
        0
    } else {
        let m = max_timestamp(fs.drop_last());
        if fs.last().rec.timestamp > m {
            fs.last().rec.timestamp
        } else {
            m
        }
    }
}

/// No frame's timestamp exceeds the largest.
pub proof fn lemma_max_timestamp(fs: Seq<SegFrame>)
    ensures
        forall|i: int|
            0 <= i < fs.len() ==> (#[trigger] fs[i]).rec.timestamp <= max_timestamp(fs),
    decreases fs.len(),
{
    if fs.len() > 0 {
        lemma_max_timestamp(fs.drop_last());
        assert forall|i: int|
            0 <= i < fs.len() implies (#[trigger] fs[i]).rec.timestamp <= max_timestamp(fs) by {
            if i < fs.len() - 1 {
                assert(fs.drop_last()[i] == fs[i]);
            }
        }
    }
}

/// The largest segment sequence number; zero when there are none.
pub open spec fn max_seq(segs: Seq<SegView>) -> u64
    decreases segs.len(),
{
    if segs.len() == 0 {
        0
    } else {
        let m = max_seq(segs.drop_last());
        if segs.last().seq > m {
            segs.last().seq
        } else {
            m
        }
    }
}

/// A record is live when it is a put and the directory's entry for its key
/// carries its timestamp: it is the current winner for that key.
pub open spec fn is_live(f: SegFrame, m: Map<Seq<char>, KeyInfo>) -> bool {
    f.rec.tombstone != 1 && m.contains_key(f.rec.key) && m[f.rec.key].timestamp
        == f.rec.timestamp
}

/// The contents of the records that survive compaction, in age order.
pub open spec fn keep_live(fs: Seq<SegFrame>, m: Map<Seq<char>, KeyInfo>) -> Seq<RecordView>
    decreases fs.len(),
{
    if fs.len() == 0 {
        seq![]
    } else {
        let p = keep_live(fs.drop_last(), m);
        if is_live(fs.last(), m) {
            p.push(fs.last().rec)
        } else {
            p
        }
    }
}

/// Filtering one more frame keeps it exactly when it is live.
pub proof fn lemma_keep_live_push(fs: Seq<SegFrame>, m: Map<Seq<char>, KeyInfo>, f: SegFrame)
    ensures
        keep_live(fs.push(f), m) == if is_live(f, m) {
            keep_live(fs, m).push(f.rec)
        } else {
            keep_live(fs, m)
        },
{
    assert(fs.push(f).drop_last() =~= fs);
    assert(fs.push(f).last() == f);
}

/// A live frame's record survives the filter.
pub proof fn lemma_live_kept(fs: Seq<SegFrame>, m: Map<Seq<char>, KeyInfo>, i: int)
    requires
        0 <= i < fs.len(),
        is_live(fs[i], m),
    ensures
        keep_live(fs, m).contains(fs[i].rec),
    decreases fs.len(),
{
    if i == fs.len() - 1 {
        assert(keep_live(fs, m).last() == fs[i].rec);
    } else {
        lemma_live_kept(fs.drop_last(), m, i);
        assert(fs.drop_last()[i] == fs[i]);
        let j = choose|j: int|
            0 <= j < keep_live(fs.drop_last(), m).len() && keep_live(fs.drop_last(), m)[j]
                == fs[i].rec;
        if is_live(fs.last(), m) {
            assert(keep_live(fs, m)[j] == fs[i].rec);
        }
    }
}

/// What the filter keeps at any index is the content of some live frame.
pub proof fn lemma_keep_live_sub(fs: Seq<SegFrame>, m: Map<Seq<char>, KeyInfo>, j: int)
    requires
        0 <= j < keep_live(fs, m).len(),
    ensures
        exists|i: int|
            0 <= i < fs.len() && keep_live(fs, m)[j] == (#[trigger] fs[i]).rec && is_live(
                fs[i],
                m,
            ),
    decreases fs.len(),
{
    if fs.len() > 0 {
        if j < keep_live(fs.drop_last(), m).len() {
            assert(keep_live(fs, m)[j] == keep_live(fs.drop_last(), m)[j]);
            lemma_keep_live_sub(fs.drop_last(), m, j);
            let i = choose|i: int|
                0 <= i < fs.drop_last().len() && keep_live(fs.drop_last(), m)[j] == (
                #[trigger] fs.drop_last()[i]).rec && is_live(fs.drop_last()[i], m);
            assert(fs[i] == fs.drop_last()[i]);
            assert(keep_live(fs, m)[j] == fs[i].rec && is_live(fs[i], m));
        } else {
            assert(is_live(fs.last(), m));
            assert(keep_live(fs, m)[j] == fs[fs.len() - 1].rec);
            assert(is_live(fs[fs.len() - 1], m));
        }
    }
}

/// With pairwise distinct timestamps, no two surviving records carry the
/// same key: each key keeps exactly its single current winner.
proof fn lemma_keep_live_keys_distinct(fs: Seq<SegFrame>, m: Map<Seq<char>, KeyInfo>)
    requires
        forall|i: int, j: int|
            #![trigger fs[i], fs[j]]
            0 <= i < j < fs.len() ==> fs[i].rec.timestamp != fs[j].rec.timestamp,
    ensures
        forall|j1: int, j2: int|
            #![trigger keep_live(fs, m)[j1], keep_live(fs, m)[j2]]
            0 <= j1 < j2 < keep_live(fs, m).len() ==> keep_live(fs, m)[j1].key != keep_live(
                fs,
                m,
            )[j2].key,
    decreases fs.len(),
{
    if fs.len() > 0 {
        let dl = fs.drop_last();
        assert forall|i: int, j: int|
            #![trigger dl[i], dl[j]]
            0 <= i < j < dl.len() implies dl[i].rec.timestamp != dl[j].rec.timestamp by {
            assert(fs[i].rec.timestamp != fs[j].rec.timestamp);
        }
        lemma_keep_live_keys_distinct(dl, m);
        let kl = keep_live(fs, m);
        let kld = keep_live(dl, m);
        if is_live(fs.last(), m) {
            assert(kl == kld.push(fs.last().rec));
            assert forall|j1: int, j2: int|
                #![trigger kl[j1], kl[j2]]
                0 <= j1 < j2 < kl.len() implies kl[j1].key != kl[j2].key by {
                if j2 == kl.len() - 1 {
                    assert(kl[j1] == kld[j1]);
                    lemma_keep_live_sub(dl, m, j1);
                    let i = choose|i: int|
                        0 <= i < dl.len() && kld[j1] == (#[trigger] dl[i]).rec && is_live(
                            dl[i],
                            m,
                        );
                    if kl[j1].key == fs.last().rec.key {
                        assert(dl[i].rec.timestamp == m[dl[i].rec.key].timestamp);
                        assert(fs.last().rec.timestamp == m[fs.last().rec.key].timestamp);
                        assert(fs[i].rec.timestamp == fs[fs.len() - 1].rec.timestamp);
                        assert(false);
                    }
                } else {
                    assert(kl[j1] == kld[j1] && kl[j2] == kld[j2]);
                    assert(kld[j1].key != kld[j2].key);
                }
            }
        } else {
            assert(kl == kld);
        }
    }
}

/// Compaction's space bound: when no two records share a timestamp -- true
/// of every store this library writes, whose counter stamps each record
/// uniquely -- the records that survive compaction number exactly the live
/// keys.
pub proof fn lemma_keep_live_count(fs: Seq<SegFrame>)
    requires
        forall|i: int, j: int|
            #![trigger fs[i], fs[j]]
            0 <= i < j < fs.len() ==> fs[i].rec.timestamp != fs[j].rec.timestamp,
    ensures
        kd_of(fs).dom().finite(),
        keep_live(fs, kd_of(fs)).len() == kd_of(fs).dom().len(),
{
    let m = kd_of(fs);
    let kl = keep_live(fs, m);
    let keys = kl.map_values(|r: RecordView| r.key);
    lemma_keep_live_keys_distinct(fs, m);
    assert(keys.no_duplicates()) by {
        assert forall|j1: int, j2: int|
            0 <= j1 < j2 < keys.len() implies keys[j1] != keys[j2] by {
            assert(kl[j1].key != kl[j2].key);
        }
    }
    keys.unique_seq_to_set();
    vstd::seq_lib::seq_to_set_is_finite(keys);
    assert forall|k: Seq<char>| #[trigger]
        keys.to_set().contains(k) implies m.dom().contains(k) by {
        let j = choose|j: int| 0 <= j < keys.len() && keys[j] == k;
        lemma_keep_live_sub(fs, m, j);
        let i = choose|i: int|
            0 <= i < fs.len() && kl[j] == (#[trigger] fs[i]).rec && is_live(fs[i], m);
        assert(m.contains_key(fs[i].rec.key));
    }
    assert forall|k: Seq<char>| #[trigger] m.dom().contains(k) implies keys.to_set().contains(
        k,
    ) by {
        lemma_last_wins(fs, k);
        lemma_proj_props(fs, k);
        let w = proj(fs, k).last();
        assert(fs.contains(w));
        let i = choose|i: int| 0 <= i < fs.len() && fs[i] == w;
        assert(is_live(fs[i], m));
        lemma_live_kept(fs, m, i);
        let j = choose|j: int| 0 <= j < kl.len() && kl[j] == w.rec;
        assert(keys[j] == k);
        assert(keys.contains(k));
    }
    assert(keys.to_set() =~= m.dom());
}

/// The records of one key among a sequence of record contents.
pub open spec fn recs_proj(rs: Seq<RecordView>, k: Seq<char>) -> Seq<RecordView>
    decreases rs.len(),
{
    if rs.len() == 0 {
        seq![]
    } else {
        let p = recs_proj(rs.drop_last(), k);
        if rs.last().key == k {
            p.push(rs.last())
        } else {
            p
        }
    }
}

/// Projecting frames to a key and taking contents commutes.
proof fn lemma_recs_of_proj(fs: Seq<SegFrame>, k: Seq<char>)
    ensures
        recs_of(proj(fs, k)) == recs_proj(recs_of(fs), k),
    decreases fs.len(),
{
    if fs.len() > 0 {
        lemma_recs_of_proj(fs.drop_last(), k);
        assert(recs_of(fs).drop_last() =~= recs_of(fs.drop_last()));
        assert(recs_of(fs).last() == fs.last().rec);
        if fs.last().rec.key == k {
            assert(recs_of(proj(fs, k)) =~= recs_of(proj(fs.drop_last(), k)).push(fs.last().rec));
        }
    }
}

/// The live filter and the key projection commute.
proof fn lemma_keep_live_proj(fs: Seq<SegFrame>, m: Map<Seq<char>, KeyInfo>, k: Seq<char>)
    ensures
        recs_proj(keep_live(fs, m), k) == keep_live(proj(fs, k), m),
    decreases fs.len(),
{
    if fs.len() > 0 {
        lemma_keep_live_proj(fs.drop_last(), m, k);
        let f = fs.last();
        if is_live(f, m) {
            assert(keep_live(fs, m) == keep_live(fs.drop_last(), m).push(f.rec));
            assert(keep_live(fs, m).drop_last() =~= keep_live(fs.drop_last(), m));
            if f.rec.key == k {
                assert(proj(fs, k) == proj(fs.drop_last(), k).push(f));
                assert(keep_live(proj(fs, k), m) =~= keep_live(proj(fs.drop_last(), k), m).push(
                    f.rec,
                )) by {
                    assert(proj(fs, k).drop_last() =~= proj(fs.drop_last(), k));
                    assert(proj(fs, k).last() == f);
                }
                assert(recs_proj(keep_live(fs, m), k) =~= recs_proj(
                    keep_live(fs.drop_last(), m),
                    k,
                ).push(f.rec));
            } else {
                assert(recs_proj(keep_live(fs, m), k) =~= recs_proj(
                    keep_live(fs.drop_last(), m),
                    k,
                ));
            }
        } else {
            if f.rec.key == k {
                assert(proj(fs, k).drop_last() =~= proj(fs.drop_last(), k));
                assert(proj(fs, k).last() == f);
            }
        }
    }
}

/// When the directory does not hold the key, no record of that key is live.
proof fn lemma_keep_live_dead_key(fs: Seq<SegFrame>, m: Map<Seq<char>, KeyInfo>, k: Seq<char>)
    requires
        !m.contains_key(k),
    ensures
        keep_live(proj(fs, k), m) == Seq::<RecordView>::empty(),
    decreases fs.len(),
{
    if fs.len() > 0 {
        lemma_keep_live_dead_key(fs.drop_last(), m, k);
        if fs.last().rec.key == k {
            assert(proj(fs, k).drop_last() =~= proj(fs.drop_last(), k));
            assert(!is_live(fs.last(), m));
        }
    }
}

/// Compaction preserves the observable state: replaying only the live
/// records yields the same key-to-value function, the same live keys, and
/// the same timestamp for each.
proof fn lemma_compaction_at_key(fs: Seq<SegFrame>, gs: Seq<SegFrame>, k: Seq<char>)
    requires
        recs_of(gs) == keep_live(fs, kd_of(fs)),
    ensures
        kd_of(gs).contains_key(k) == kd_of(fs).contains_key(k),
        state_of(gs).contains_key(k) == state_of(fs).contains_key(k),
        state_of(fs).contains_key(k) == kd_of(fs).contains_key(k),
        kd_of(fs).contains_key(k) ==> state_of(gs)[k] == state_of(fs)[k]
            && kd_of(gs)[k].timestamp == kd_of(fs)[k].timestamp,
{
    let m = kd_of(fs);
    lemma_last_wins(fs, k);
    lemma_last_wins(gs, k);
    lemma_recs_of_proj(gs, k);
    lemma_keep_live_proj(fs, m, k);
    let pf = proj(fs, k);
    let pg = proj(gs, k);
    assert(recs_of(pg) == keep_live(pf, m));
    if m.contains_key(k) {
        let w = pf.last();
        assert(w.rec.tombstone != 1 && w.rec.key == k && m[k] == info_of(w));
        assert(is_live(w, m));
        assert(keep_live(pf, m) == keep_live(pf.drop_last(), m).push(w.rec));
        assert(recs_of(pg).len() > 0);
        assert(pg.len() == recs_of(pg).len());
        assert(recs_of(pg).last() == w.rec);
        assert(pg.last().rec == w.rec) by {
            assert(recs_of(pg)[pg.len() - 1] == pg[pg.len() - 1].rec);
        }
        assert(kd_of(gs).contains_key(k));
        assert(state_of(gs)[k] == w.rec.value);
        assert(kd_of(gs)[k].timestamp == w.rec.timestamp);
    } else {
        lemma_keep_live_dead_key(fs, m, k);
        assert(recs_of(pg).len() == 0);
        assert(pg.len() == 0);
        assert(!kd_of(gs).contains_key(k));
    }
}

/// Compaction preserves the observable state: replaying only the live
/// records yields the same key-to-value function, the same live keys, and
/// the same timestamp for each.
pub proof fn lemma_compaction_preserves(fs: Seq<SegFrame>, gs: Seq<SegFrame>)
    requires
        recs_of(gs) == keep_live(fs, kd_of(fs)),
    ensures
        state_of(gs) == state_of(fs),
        kd_of(gs).dom() == kd_of(fs).dom(),
        forall|k: Seq<char>|
            kd_of(fs).contains_key(k) ==> kd_of(gs)[k].timestamp == (#[trigger] kd_of(fs)[k]).timestamp,
{
    assert forall|k: Seq<char>|
        #![trigger state_of(gs).dom().contains(k)]
        #![trigger state_of(fs).dom().contains(k)]
        state_of(gs).dom().contains(k) == state_of(fs).dom().contains(k) && (state_of(
            fs,
        ).dom().contains(k) ==> state_of(gs)[k] == state_of(fs)[k]) by {
        lemma_compaction_at_key(fs, gs, k);
    }
    assert forall|k: Seq<char>|
        #![trigger kd_of(gs).dom().contains(k)]
        #![trigger kd_of(fs).dom().contains(k)]
        kd_of(gs).dom().contains(k) == kd_of(fs).dom().contains(k) by {
        lemma_compaction_at_key(fs, gs, k);
    }
    assert forall|k: Seq<char>|
        kd_of(fs).contains_key(k) implies kd_of(gs)[k].timestamp == (#[trigger] kd_of(
        fs,
    )[k]).timestamp by {
        lemma_compaction_at_key(fs, gs, k);
    }
    assert(state_of(gs) =~= state_of(fs));
    assert(kd_of(gs).dom() =~= kd_of(fs).dom());
}

/// Segments stand in ascending sequence-number order.
pub open spec fn sorted_le(s: Seq<SegView>) -> bool {
    forall|i: int, j: int|
        #![trigger s[i], s[j]]
        0 <= i < j < s.len() ==> s[i].seq <= s[j].seq
}

/// No two segments carry the same sequence number.
pub open spec fn distinct_seqs(s: Seq<SegView>) -> bool {
    forall|i: int, j: int|
        #![trigger s[i], s[j]]
        0 <= i < j < s.len() ==> s[i].seq != s[j].seq
}

/// `x` placed from the right, before the first strictly larger segment.
pub open spec fn insert_sorted(s: Seq<SegView>, x: SegView) -> Seq<SegView>
    decreases s.len(),
{
    if s.len() == 0 {
        seq![x]
    } else if s.last().seq <= x.seq {
        s.push(x)
    } else {
        insert_sorted(s.drop_last(), x).push(s.last())
    }
}

/// Insertion sort by sequence number.
pub open spec fn sort_segs(s: Seq<SegView>) -> Seq<SegView>
    decreases s.len(),
{
    if s.len() == 0 {
        seq![]
    } else {
        insert_sorted(sort_segs(s.drop_last()), s.last())
    }
}

/// Inserting into a sorted sequence keeps it sorted and adds the element.
pub proof fn lemma_insert_sorted(s: Seq<SegView>, x: SegView)
    requires
        sorted_le(s),
    ensures
        ({
            let r = insert_sorted(s, x);
            &&& sorted_le(r)
            &&& r.len() == s.len() + 1
            &&& forall|e: SegView| r.contains(e) <==> s.contains(e) || e == x
        }),
    decreases s.len(),
{
    let r = insert_sorted(s, x);
    if s.len() == 0 {
        assert(r == seq![x]);
        assert(r[0] == x);
        assert forall|e: SegView| r.contains(e) implies s.contains(e) || e == x by {
            let i = choose|i: int| 0 <= i < r.len() && r[i] == e;
            assert(i == 0);
        }
        assert(r.contains(x));
    } else if s.last().seq <= x.seq {
        assert forall|i: int, j: int|
            #![trigger r[i], r[j]]
            0 <= i < j < r.len() implies r[i].seq <= r[j].seq by {
            if j < r.len() - 1 {
                assert(s[i].seq <= s[j].seq);
            } else {
                if i < s.len() - 1 {
                    assert(s[i].seq <= s[s.len() - 1].seq);
                }
            }
        }
        assert forall|e: SegView| r.contains(e) implies s.contains(e) || e == x by {
            let i = choose|i: int| 0 <= i < r.len() && r[i] == e;
            if i < s.len() {
                assert(s[i] == e);
            }
        }
        assert forall|e: SegView| s.contains(e) || e == x implies r.contains(e) by {
            if s.contains(e) {
                let i = choose|i: int| 0 <= i < s.len() && s[i] == e;
                assert(r[i] == e);
            } else {
                assert(r[r.len() - 1] == x);
            }
        }
    } else {
        let dl = s.drop_last();
        assert(sorted_le(dl)) by {
            assert forall|i: int, j: int|
                #![trigger dl[i], dl[j]]
                0 <= i < j < dl.len() implies dl[i].seq <= dl[j].seq by {
                assert(s[i].seq <= s[j].seq);
            }
        }
        lemma_insert_sorted(dl, x);
        let r2 = insert_sorted(dl, x);
        assert(r == r2.push(s.last()));
        assert forall|i: int| 0 <= i < r2.len() implies (#[trigger] r2[i]).seq <= s.last().seq by {
            assert(r2.contains(r2[i]));
            if dl.contains(r2[i]) {
                let k = choose|k: int| 0 <= k < dl.len() && dl[k] == r2[i];
                assert(s[k].seq <= s[s.len() - 1].seq);
            }
        }
        assert forall|i: int, j: int|
            #![trigger r[i], r[j]]
            0 <= i < j < r.len() implies r[i].seq <= r[j].seq by {
            if j < r.len() - 1 {
                assert(r2[i].seq <= r2[j].seq);
            } else {
                assert(r2[i].seq <= s.last().seq);
            }
        }
        assert forall|e: SegView| r.contains(e) implies s.contains(e) || e == x by {
            let i = choose|i: int| 0 <= i < r.len() && r[i] == e;
            if i < r2.len() {
                assert(r2.contains(r2[i]));
                if dl.contains(e) {
                    let k = choose|k: int| 0 <= k < dl.len() && dl[k] == e;
                    assert(s[k] == e);
                }
            } else {
                assert(e == s.last());
                assert(s[s.len() - 1] == e);
            }
        }
        assert forall|e: SegView| s.contains(e) || e == x implies r.contains(e) by {
            if s.contains(e) {
                let i = choose|i: int| 0 <= i < s.len() && s[i] == e;
                if i < s.len() - 1 {
                    assert(dl[i] == e);
                    assert(r2.contains(e));
                    let k = choose|k: int| 0 <= k < r2.len() && r2[k] == e;
                    assert(r[k] == e);
                } else {
                    assert(r[r.len() - 1] == e);
                }
            } else {
                assert(r2.contains(x));
                let k = choose|k: int| 0 <= k < r2.len() && r2[k] == x;
                assert(r[k] == x);
            }
        }
    }
}

/// Inserting a fresh sequence number keeps the numbers distinct.
pub proof fn lemma_insert_sorted_distinct(s: Seq<SegView>, x: SegView)
    requires
        sorted_le(s),
        distinct_seqs(s),
        forall|i: int| 0 <= i < s.len() ==> (#[trigger] s[i]).seq != x.seq,
    ensures
        distinct_seqs(insert_sorted(s, x)),
    decreases s.len(),
{
    let r = insert_sorted(s, x);
    lemma_insert_sorted(s, x);
    if s.len() == 0 {
    } else if s.last().seq <= x.seq {
        assert forall|i: int, j: int|
            #![trigger r[i], r[j]]
            0 <= i < j < r.len() implies r[i].seq != r[j].seq by {
            if j < r.len() - 1 {
                assert(s[i].seq != s[j].seq);
            } else {
                assert(s[i].seq != x.seq);
            }
        }
    } else {
        let dl = s.drop_last();
        assert(sorted_le(dl) && distinct_seqs(dl)) by {
            assert forall|i: int, j: int|
                #![trigger dl[i], dl[j]]
                0 <= i < j < dl.len() implies dl[i].seq <= dl[j].seq && dl[i].seq != dl[j].seq by {
                assert(s[i].seq <= s[j].seq && s[i].seq != s[j].seq);
            }
        }
        assert(forall|i: int| 0 <= i < dl.len() ==> (#[trigger] dl[i]).seq != x.seq) by {
            assert(forall|i: int| 0 <= i < dl.len() ==> dl[i] == s[i]);
        }
        lemma_insert_sorted_distinct(dl, x);
        lemma_insert_sorted(dl, x);
        let r2 = insert_sorted(dl, x);
        assert forall|i: int| 0 <= i < r2.len() implies (#[trigger] r2[i]).seq != s.last().seq by {
            assert(r2.contains(r2[i]));
            if dl.contains(r2[i]) {
                let k = choose|k: int| 0 <= k < dl.len() && dl[k] == r2[i];
                assert(s[k].seq != s[s.len() - 1].seq);
            }
        }
        assert forall|i: int, j: int|
            #![trigger r[i], r[j]]
            0 <= i < j < r.len() implies r[i].seq != r[j].seq by {
            if j < r.len() - 1 {
                assert(r2[i].seq != r2[j].seq);
            } else {
                assert(r2[i].seq != s.last().seq);
            }
        }
    }
}

/// Sorting keeps length, elements and distinctness, and yields order.
pub proof fn lemma_sort_segs(s: Seq<SegView>)
    requires
        distinct_seqs(s),
    ensures
        ({
            let r = sort_segs(s);
            &&& sorted_le(r)
            &&& distinct_seqs(r)
            &&& r.len() == s.len()
            &&& forall|e: SegView| r.contains(e) <==> s.contains(e)
        }),
    decreases s.len(),
{
    let r = sort_segs(s);
    if s.len() > 0 {
        let dl = s.drop_last();
        assert(distinct_seqs(dl)) by {
            assert forall|i: int, j: int|
                #![trigger dl[i], dl[j]]
                0 <= i < j < dl.len() implies dl[i].seq != dl[j].seq by {
                assert(s[i].seq != s[j].seq);
            }
        }
        lemma_sort_segs(dl);
        let r2 = sort_segs(dl);
        lemma_insert_sorted(r2, s.last());
        assert(forall|i: int| 0 <= i < r2.len() ==> (#[trigger] r2[i]).seq != s.last().seq) by {
            assert forall|i: int| 0 <= i < r2.len() implies (#[trigger] r2[i]).seq != s.last().seq by {
                assert(r2.contains(r2[i]));
                assert(dl.contains(r2[i]));
                let k = choose|k: int| 0 <= k < dl.len() && dl[k] == r2[i];
                assert(s[k].seq != s[s.len() - 1].seq);
            }
        }
        lemma_insert_sorted_distinct(r2, s.last());
        assert forall|e: SegView| r.contains(e) implies s.contains(e) by {
            if r2.contains(e) {
                let k = choose|k: int| 0 <= k < dl.len() && dl[k] == e;
                assert(s[k] == e);
            } else {
                assert(s[s.len() - 1] == e);
            }
        }
        assert forall|e: SegView| s.contains(e) implies r.contains(e) by {
            let i = choose|i: int| 0 <= i < s.len() && s[i] == e;
            if i < s.len() - 1 {
                assert(dl[i] == e);
            }
        }
    }
}

/// A sorted sequence is its own sort.
pub proof fn lemma_sort_sorted_id(s: Seq<SegView>)
    requires
        sorted_le(s),
    ensures
        sort_segs(s) == s,
    decreases s.len(),
{
    if s.len() > 0 {
        let dl = s.drop_last();
        assert(sorted_le(dl)) by {
            assert forall|i: int, j: int|
                #![trigger dl[i], dl[j]]
                0 <= i < j < dl.len() implies dl[i].seq <= dl[j].seq by {
                assert(s[i].seq <= s[j].seq);
            }
        }
        lemma_sort_sorted_id(dl);
        if dl.len() == 0 {
            assert(sort_segs(s) =~= s);
        } else {
            assert(dl.last().seq <= s.last().seq) by {
                assert(s[s.len() - 2].seq <= s[s.len() - 1].seq);
            }
            assert(sort_segs(s) =~= s);
        }
    }
}

/// A segment with its unreadable tail cut off.
pub open spec fn trim_seg(s: SegView) -> SegView {
    SegView { seq: s.seq, data: s.data.take(scan(s.data).end) }
}

/// Every segment with its unreadable tail cut off.
pub open spec fn trim_segs(segs: Seq<SegView>) -> Seq<SegView> {
    segs.map_values(|s: SegView| trim_seg(s))
}

/// Every segment scans without meeting corruption.
pub open spec fn all_scans_ok(segs: Seq<SegView>) -> bool {
    forall|i: int| 0 <= i < segs.len() ==> scan((#[trigger] segs[i]).data).ok
}

/// Trimming unreadable tails keeps every frame and leaves every segment
/// cleanly framed.
pub proof fn lemma_trim_segs(segs: Seq<SegView>)
    requires
        all_scans_ok(segs),
    ensures
        all_frames(trim_segs(segs)) == all_frames(segs),
        forall|i: int|
            0 <= i < segs.len() ==> well_framed((#[trigger] trim_segs(segs)[i]).data),
    decreases segs.len(),
{
    if segs.len() > 0 {
        let dl = segs.drop_last();
        assert(all_scans_ok(dl)) by {
            assert forall|i: int| 0 <= i < dl.len() implies scan((#[trigger] dl[i]).data).ok by {
                assert(segs[i] == dl[i]);
            }
        }
        lemma_trim_segs(dl);
        crate::frame::lemma_scan_take_end(segs.last().data);
        assert(trim_segs(segs).drop_last() =~= trim_segs(dl));
        assert(seg_frames(trim_seg(segs.last())) =~= seg_frames(segs.last()));
        assert(trim_segs(segs).last() == trim_seg(segs.last()));
        assert(all_frames(trim_segs(segs)) =~= all_frames(segs));
        assert forall|i: int|
            0 <= i < segs.len() implies well_framed((#[trigger] trim_segs(segs)[i]).data) by {
            if i < segs.len() - 1 {
                assert(trim_segs(dl)[i] == trim_segs(segs)[i]);
            } else {
                assert(trim_segs(segs)[i] == trim_seg(segs.last()));
            }
        }
    }
}

/// No segment's sequence number exceeds the largest.
pub proof fn lemma_max_seq(segs: Seq<SegView>)
    ensures
        forall|i: int| 0 <= i < segs.len() ==> (#[trigger] segs[i]).seq <= max_seq(segs),
    decreases segs.len(),
{
    if segs.len() > 0 {
        lemma_max_seq(segs.drop_last());
        assert forall|i: int|
            0 <= i < segs.len() implies (#[trigger] segs[i]).seq <= max_seq(segs) by {
            if i < segs.len() - 1 {
                assert(segs.drop_last()[i] == segs[i]);
            }
        }
    }
}

} // verus!
