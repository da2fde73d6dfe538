//! The store's laws, stated and proved once and for all.
//!
//! `set` promises that the visible state becomes `m.insert(key, value)`,
//! `remove` that it becomes `m.remove(key)`, and `get` that it returns
//! exactly the state at the key.  The first lemmas here therefore speak of
//! arbitrary sequences of such state updates; the later ones speak of a
//! well-formed store directly.

use crate::frame::{frame_next, lemma_scan_truncate, scan, well_framed};
use crate::replay::{all_frames, all_scans_ok, distinct_seqs, kd_of, keep_live,
    lemma_keep_live_count, lemma_last_wins, lemma_sort_sorted_id, located, max_timestamp,
    seg_frames, sort_segs, sorted_le, state_of, SegFrame, SegView};
use crate::KvStore;
use vstd::prelude::*;

verus! {

/// One mutation of the store's visible state.
pub enum Op {
    Put(Seq<char>, Seq<char>),
    Remove(Seq<char>),
}

/// What one operation does to the visible state: exactly what the contracts
/// of `KvStore::set` and `KvStore::remove` promise.
pub open spec fn apply_op(
    m: Map<Seq<char>, Seq<char>>,
    op: Op,
) -> Map<Seq<char>, Seq<char>> {
    match op {
        Op::Put(k, v) => m.insert(k, v),
        Op::Remove(k) => m.remove(k),
    }
}

/// The state after a sequence of operations.
pub open spec fn run_ops(m: Map<Seq<char>, Seq<char>>, ops: Seq<Op>) -> Map<
    Seq<char>,
    Seq<char>,
>
    decreases ops.len(),
{
    if ops.len() == 0 {
        m
    } else {
        apply_op(run_ops(m, ops.drop_last()), ops.last())
    }
}

/// Whether an operation reads or writes the key.
pub open spec fn touches(op: Op, k: Seq<char>) -> bool {
    match op {
        Op::Put(k2, _) => k2 == k,
        Op::Remove(k2) => k2 == k,
    }
}

/// Whether an operation sets the key.
pub open spec fn puts(op: Op, k: Seq<char>) -> bool {
    match op {
        Op::Put(k2, _) => k2 == k,
        Op::Remove(_) => false,
    }
}

/// Read-your-writes: after `set(k, v)`, followed by any operations that do
/// not touch `k`, the state holds `v` at `k` -- so `get(k)`, which returns
/// exactly the state at `k`, answers `v`.
pub proof fn lemma_read_your_writes(
    m: Map<Seq<char>, Seq<char>>,
    ops: Seq<Op>,
    k: Seq<char>,
    v: Seq<char>,
)
    requires
        forall|i: int| 0 <= i < ops.len() ==> !touches(#[trigger] ops[i], k),
    ensures
        run_ops(m.insert(k, v), ops).contains_key(k),
        run_ops(m.insert(k, v), ops)[k] == v,
    decreases ops.len(),
{
    if ops.len() > 0 {
        assert(forall|i: int|
            0 <= i < ops.drop_last().len() ==> !touches(#[trigger] ops.drop_last()[i], k))
            by {
            assert(forall|i: int|
                0 <= i < ops.drop_last().len() ==> ops.drop_last()[i] == ops[i]);
        }
        lemma_read_your_writes(m, ops.drop_last(), k, v);
        assert(!touches(ops.last(), k));
    }
}

/// Last writer wins: whatever came before, after `set(k, v)` followed by any
/// operations that do not touch `k` again, the state at `k` is the value of
/// that most recent set.
pub proof fn lemma_last_writer_wins(
    m: Map<Seq<char>, Seq<char>>,
    ops: Seq<Op>,
    i: int,
    k: Seq<char>,
    v: Seq<char>,
)
    requires
        0 <= i < ops.len(),
        ops[i] == Op::Put(k, v),
        forall|j: int| i < j < ops.len() ==> !touches(#[trigger] ops[j], k),
    ensures
        run_ops(m, ops).contains_key(k),
        run_ops(m, ops)[k] == v,
{
    let a = ops.take(i + 1);
    let b = ops.skip(i + 1);
    assert(ops =~= a + b);
    lemma_run_ops_split(m, a, b);
    assert(a.drop_last() =~= ops.take(i));
    assert(a.last() == ops[i]);
    assert(run_ops(m, a) == run_ops(m, ops.take(i)).insert(k, v));
    assert(forall|j: int| 0 <= j < b.len() ==> !touches(#[trigger] b[j], k)) by {
        assert(forall|j: int| 0 <= j < b.len() ==> b[j] == ops[i + 1 + j]);
    }
    lemma_read_your_writes(run_ops(m, ops.take(i)), b, k, v);
}

/// Tombstone semantics: after `remove(k)`, followed by any operations that
/// do not set `k` again, the state holds nothing at `k` -- so `get(k)`
/// answers absent.
pub proof fn lemma_tombstone(m: Map<Seq<char>, Seq<char>>, ops: Seq<Op>, i: int, k: Seq<char>)
    requires
        0 <= i < ops.len(),
        ops[i] == Op::Remove(k),
        forall|j: int| i < j < ops.len() ==> !puts(#[trigger] ops[j], k),
    ensures
        !run_ops(m, ops).contains_key(k),
{
    let a = ops.take(i + 1);
    let b = ops.skip(i + 1);
    assert(ops =~= a + b);
    lemma_run_ops_split(m, a, b);
    assert(a.last() == ops[i]);
    assert(!run_ops(m, a).contains_key(k));
    assert(forall|j: int| 0 <= j < b.len() ==> !puts(#[trigger] b[j], k)) by {
        assert(forall|j: int| 0 <= j < b.len() ==> b[j] == ops[i + 1 + j]);
    }
    lemma_stays_absent(run_ops(m, a), b, k);
}

/// Running a concatenation runs the parts in turn.
proof fn lemma_run_ops_split(m: Map<Seq<char>, Seq<char>>, a: Seq<Op>, b: Seq<Op>)
    ensures
        run_ops(m, a + b) == run_ops(run_ops(m, a), b),
    decreases b.len(),
{
    if b.len() == 0 {
        assert(a + b =~= a);
    } else {
        assert((a + b).drop_last() =~= a + b.drop_last());
        assert((a + b).last() == b.last());
        lemma_run_ops_split(m, a, b.drop_last());
    }
}

/// A key that is absent stays absent under operations that do not set it.
proof fn lemma_stays_absent(m: Map<Seq<char>, Seq<char>>, ops: Seq<Op>, k: Seq<char>)
    requires
        !m.contains_key(k),
        forall|j: int| 0 <= j < ops.len() ==> !puts(#[trigger] ops[j], k),
    ensures
        !run_ops(m, ops).contains_key(k),
    decreases ops.len(),
{
    if ops.len() > 0 {
        assert(forall|j: int|
            0 <= j < ops.drop_last().len() ==> !puts(#[trigger] ops.drop_last()[j], k)) by {
            assert(forall|j: int|
                0 <= j < ops.drop_last().len() ==> ops.drop_last()[j] == ops[j]);
        }
        lemma_stays_absent(m, ops.drop_last(), k);
        assert(!puts(ops.last(), k));
    }
}

/// Durability across reopen: the segments a well-formed store holds are
/// already sorted, scan cleanly, and carry no timestamp at the counter's
/// ceiling; replaying them yields the store's own state.  By the contract of
/// `KvStore::open`, opening those very segments therefore succeeds and
/// returns a store with the same visible state and a counter no further
/// along -- every `get` answers as before the store was dropped.
pub proof fn lemma_reopen(s: KvStore)
    requires
        s.wf(),
    ensures
        distinct_seqs(s.segs()),
        sort_segs(s.segs()) == s.segs(),
        all_scans_ok(s.segs()),
        max_timestamp(all_frames(s.segs())) < s.counter(),
        state_of(all_frames(s.segs())) == s@,
{
    assert(sorted_le(s.segs()));
    lemma_sort_sorted_id(s.segs());
    lemma_max_ts_below(s.frames(), s.counter());
}

/// The largest of timestamps all below a positive bound stays below it.
proof fn lemma_max_ts_below(fs: Seq<SegFrame>, c: u64)
    requires
        c >= 1,
        forall|i: int| 0 <= i < fs.len() ==> (#[trigger] fs[i]).rec.timestamp < c,
    ensures
        max_timestamp(fs) < c,
    decreases fs.len(),
{
    if fs.len() > 0 {
        assert(forall|i: int|
            0 <= i < fs.drop_last().len() ==> (#[trigger] fs.drop_last()[i]).rec.timestamp < c)
            by {
            assert(forall|i: int|
                0 <= i < fs.drop_last().len() ==> fs.drop_last()[i] == fs[i]);
        }
        lemma_max_ts_below(fs.drop_last(), c);
        assert(fs[fs.len() - 1].rec.timestamp < c);
    }
}

/// Timestamp monotonicity: every record a well-formed store holds carries a
/// timestamp strictly below the counter.  `set` and `remove` stamp the next
/// record with the counter itself, so each new record is strictly newer than
/// everything persisted before it; `open` resumes the counter past the
/// largest persisted timestamp, so this holds across restarts too.
pub proof fn lemma_timestamps_below_counter(s: KvStore)
    requires
        s.wf(),
    ensures
        forall|i: int|
            0 <= i < s.frames().len() ==> (#[trigger] s.frames()[i]).rec.timestamp < s.counter(),
{
}

/// Compaction's space bound: of the records a store holds, the live ones --
/// those compaction retains, per its contract -- number exactly the live
/// keys, provided no two records share a timestamp.  Every store this
/// library writes satisfies that: the counter stamps each record uniquely
/// and resumes past the largest persisted timestamp; only hand-crafted
/// segment files can repeat one.  So right after compaction the bytes on
/// disk are one record's worth per live key.
pub proof fn lemma_compaction_space(s: KvStore)
    requires
        s.wf(),
        forall|i: int, j: int|
            #![trigger s.frames()[i], s.frames()[j]]
            0 <= i < j < s.frames().len() ==> s.frames()[i].rec.timestamp
                != s.frames()[j].rec.timestamp,
    ensures
        s@.dom().finite(),
        keep_live(s.frames(), kd_of(s.frames())).len() == s@.dom().len(),
{
    lemma_keep_live_count(s.frames());
    assert forall|k: Seq<char>|
        #![trigger s@.dom().contains(k)]
        #![trigger kd_of(s.frames()).dom().contains(k)]
        s@.dom().contains(k) == kd_of(s.frames()).dom().contains(k) by {
        lemma_last_wins(s.frames(), k);
    }
    assert(s@.dom() =~= kd_of(s.frames()).dom());
}

/// Torn-tail tolerance: truncate the active (last) segment of a well-formed
/// store to any length.  Every segment still scans cleanly, so by the
/// contract of `KvStore::open` mounting the truncated segments succeeds; and
/// the surviving records are exactly a prefix of the store's records: those
/// of the older segments, and of the active one every record whose frame
/// lies wholly within the kept bytes.  The reopened state is the one those
/// records denote.
pub proof fn lemma_torn_tail(s: KvStore, n: int)
    requires
        s.wf(),
        0 <= n <= s.segs().last().data.len(),
    ensures
        ({
            let last = s.segs().last();
            let cut = s.segs().update(
                s.segs().len() - 1,
                SegView { seq: last.seq, data: last.data.take(n) },
            );
            &&& distinct_seqs(cut)
            &&& sort_segs(cut) == cut
            &&& all_scans_ok(cut)
            &&& exists|j: int|
                0 <= j <= s.frames().len() && all_frames(cut) == s.frames().take(j) && (forall|
                    i: int,
                |
                    0 <= i < scan(last.data).frames.len() ==> (#[trigger] frame_next(
                        scan(last.data),
                        i,
                    ) <= n <==> all_frames(cut).len() - (s.frames().len() - scan(
                        last.data,
                    ).frames.len()) > i))
        }),
{
    let segs = s.segs();
    let last = segs.last();
    let d = last.data;
    let cut = segs.update(segs.len() - 1, SegView { seq: last.seq, data: d.take(n) });
    assert(well_framed(d));
    lemma_scan_truncate(d, n);
    let sc = scan(d);
    let j = choose|j: int|
        0 <= j <= sc.frames.len() && scan(d.take(n)).frames == sc.frames.take(j) && (forall|
            i: int,
        |
            0 <= i < sc.frames.len() ==> (#[trigger] frame_next(sc, i) <= n <==> i < j));
    assert(cut.drop_last() =~= segs.drop_last());
    assert(cut.last() == SegView { seq: last.seq, data: d.take(n) });
    let prev = all_frames(segs.drop_last());
    assert(all_frames(segs) == prev + seg_frames(last));
    assert(all_frames(cut) == prev + seg_frames(cut.last()));
    assert(seg_frames(cut.last()) =~= located(sc.frames.take(j), last.seq));
    assert(all_frames(cut) =~= all_frames(segs).take(prev.len() + j));
    assert forall|i: int, jj: int|
        #![trigger cut[i], cut[jj]]
        0 <= i < jj < cut.len() implies cut[i].seq < cut[jj].seq by {
        assert(cut[i].seq == segs[i].seq);
        assert(cut[jj].seq == segs[jj].seq);
    }
    assert(sorted_le(cut));
    lemma_sort_sorted_id(cut);
    assert forall|i: int| 0 <= i < cut.len() implies scan((#[trigger] cut[i]).data).ok by {
        if i < cut.len() - 1 {
            assert(cut[i] == segs[i]);
            assert(well_framed(segs[i].data));
        }
    }
    assert(all_frames(cut).len() == prev.len() + j);
    assert(s.frames().len() == prev.len() + sc.frames.len());
    assert(all_frames(cut).len() - (s.frames().len() - sc.frames.len()) == j);
}

} // verus!
