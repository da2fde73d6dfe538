use kvs::reader::{read_record, ReadOutcome};
use kvs::record::Record;
use kvs::{KvStore, KvsError, Segment};

fn open_empty() -> KvStore {
    KvStore::open(Vec::new()).expect("open of an empty directory succeeds")
}

fn reopen(store: KvStore) -> KvStore {
    KvStore::open(store.into_segments()).expect("reopen succeeds")
}

fn s(x: &str) -> String {
    x.to_string()
}

fn decode_all(seg: &Segment) -> Vec<Record> {
    let mut out = Vec::new();
    let mut pos = 0usize;
    loop {
        match read_record(seg.data.as_slice(), pos) {
            ReadOutcome::Rec(r, next) => {
                out.push(r);
                pos = next;
            }
            ReadOutcome::End => break,
            ReadOutcome::Corrupt => panic!("corrupt segment in test"),
        }
    }
    out
}

fn all_records(segs: &[Segment]) -> Vec<Record> {
    let mut out = Vec::new();
    for seg in segs {
        out.extend(decode_all(seg));
    }
    out
}

#[test]
fn set_then_get() {
    let mut st = open_empty();
    st.set(s("a"), s("1")).unwrap();
    st.set(s("b"), s("2")).unwrap();
    assert_eq!(st.get(s("a")).unwrap(), Some(s("1")));
    assert_eq!(st.get(s("b")).unwrap(), Some(s("2")));
    assert_eq!(st.get(s("c")).unwrap(), None);
}

#[test]
fn overwrite_and_reopen() {
    let mut st = open_empty();
    st.set(s("k"), s("v1")).unwrap();
    st.set(s("k"), s("v2")).unwrap();
    assert_eq!(st.get(s("k")).unwrap(), Some(s("v2")));
    let segs = st.into_segments();
    assert_eq!(segs.len(), 1);
    let recs = decode_all(&segs[0]);
    assert_eq!(recs.len(), 2);
    assert_eq!(recs[0].key, s("k"));
    assert_eq!(recs[0].value, s("v1"));
    assert_eq!(recs[1].key, s("k"));
    assert_eq!(recs[1].value, s("v2"));
    let mut st2 = KvStore::open(segs).unwrap();
    assert_eq!(st2.get(s("k")).unwrap(), Some(s("v2")));
}

#[test]
fn remove_then_get_absent() {
    let mut st = open_empty();
    st.set(s("k"), s("v")).unwrap();
    assert_eq!(st.remove(s("k")), Ok(()));
    assert_eq!(st.get(s("k")).unwrap(), None);
    assert_eq!(st.remove(s("k")), Err(KvsError::KeyNotFound));
}

#[test]
fn remove_of_never_written_key_fails() {
    let mut st = open_empty();
    assert_eq!(st.remove(s("nothing")), Err(KvsError::KeyNotFound));
    st.set(s("k"), s("v")).unwrap();
    assert_eq!(st.remove(s("other")), Err(KvsError::KeyNotFound));
}

#[test]
fn tombstone_until_next_set() {
    let mut st = open_empty();
    st.set(s("k"), s("v")).unwrap();
    st.remove(s("k")).unwrap();
    st.set(s("x"), s("y")).unwrap();
    assert_eq!(st.get(s("k")).unwrap(), None);
    st.set(s("k"), s("again")).unwrap();
    assert_eq!(st.get(s("k")).unwrap(), Some(s("again")));
}

#[test]
fn read_your_writes_across_other_keys() {
    let mut st = open_empty();
    st.set(s("k"), s("v")).unwrap();
    st.set(s("other"), s("1")).unwrap();
    st.remove(s("other")).unwrap();
    st.set(s("third"), s("2")).unwrap();
    assert_eq!(st.get(s("k")).unwrap(), Some(s("v")));
}

#[test]
fn empty_value_round_trips() {
    let mut st = open_empty();
    st.set(s("k"), s("")).unwrap();
    assert_eq!(st.get(s("k")).unwrap(), Some(s("")));
    let mut st2 = reopen(st);
    assert_eq!(st2.get(s("k")).unwrap(), Some(s("")));
}

#[test]
fn durability_across_reopen() {
    let mut st = open_empty();
    st.set(s("a"), s("1")).unwrap();
    st.set(s("b"), s("2")).unwrap();
    st.set(s("a"), s("3")).unwrap();
    st.remove(s("b")).unwrap();
    st.set(s("c"), s("4")).unwrap();
    let mut st2 = reopen(st);
    assert_eq!(st2.get(s("a")).unwrap(), Some(s("3")));
    assert_eq!(st2.get(s("b")).unwrap(), None);
    assert_eq!(st2.get(s("c")).unwrap(), Some(s("4")));
}

#[test]
fn many_keys_rollover_and_reopen() {
    let mut st = open_empty();
    let value = "x".repeat(50);
    for i in 0..200 {
        st.set(format!("key{:03}", i), value.clone()).unwrap();
    }
    assert!(st.num_segments() > 1, "50-byte values across 200 keys must roll over");
    let mut st2 = reopen(st);
    for i in 0..200 {
        assert_eq!(st2.get(format!("key{:03}", i)).unwrap(), Some(value.clone()));
    }
}

#[test]
fn hot_key_compaction_reclaims_space() {
    let mut st = open_empty();
    for i in 0..1000 {
        st.set(s("hot"), format!("v{}", i)).unwrap();
    }
    assert_eq!(st.get(s("hot")).unwrap(), Some(s("v999")));
    assert_eq!(st.num_keys(), 1);
    assert!(st.num_segments() <= 7, "compaction keeps the segment count bounded");
    let segs = st.into_segments();
    let recs = all_records(&segs);
    let hot_copies = recs.iter().filter(|r| r.key == "hot").count();
    assert!(hot_copies < 1000, "compaction drops superseded records");
    let max_ts = recs.iter().map(|r| r.timestamp).max().unwrap();
    let live = recs
        .iter()
        .filter(|r| r.key == "hot" && r.timestamp == max_ts)
        .count();
    assert_eq!(live, 1, "exactly one current record for the hot key");
}

#[test]
fn compaction_preserves_state() {
    let mut st = open_empty();
    let filler = "f".repeat(40);
    for i in 0..60 {
        st.set(format!("k{}", i % 20), format!("{}{}", filler, i)).unwrap();
    }
    for i in 0..5 {
        st.remove(format!("k{}", i)).unwrap();
    }
    for i in 0..60 {
        st.set(format!("k{}", i % 20), format!("{}{}", filler, i + 100)).unwrap();
    }
    for i in 0..20 {
        let expect = format!("{}{}", filler, (40 + i) + 100);
        assert_eq!(st.get(format!("k{}", i)).unwrap(), Some(expect));
    }
    assert_eq!(st.num_keys(), 20);
    assert_eq!(st.get(s("unrelated")).unwrap(), None);
}

#[test]
fn rollover_starts_a_fresh_segment() {
    let mut st = open_empty();
    // grow the active segment past the rollover threshold
    st.set(s("big"), "b".repeat(1200)).unwrap();
    assert_eq!(st.num_segments(), 1);
    st.set(s("k"), s("v")).unwrap();
    assert_eq!(st.num_segments(), 2);
    let segs = st.into_segments();
    // the fresh tail carries the next sequence number and holds exactly the
    // new record, whose frame starts at offset zero
    assert_eq!(segs[1].seq, segs[0].seq + 1);
    let recs = decode_all(&segs[1]);
    assert_eq!(recs.len(), 1);
    assert_eq!(recs[0].key, s("k"));
    assert_eq!(recs[0].value, s("v"));
    match read_record(segs[1].data.as_slice(), 0) {
        ReadOutcome::Rec(r, next) => {
            assert_eq!(r.key, s("k"));
            assert_eq!(next, segs[1].data.len());
        }
        _ => panic!("the fresh segment starts with the new record"),
    }
}

#[test]
fn torn_tail_is_tolerated() {
    let mut st = open_empty();
    st.set(s("k"), s("v")).unwrap();
    let mut segs = st.into_segments();
    assert_eq!(segs.len(), 1);
    let full = segs[0].data.len();
    // cut one byte out of the only frame: 8 + payload_len - 1 bytes remain
    segs[0].data.truncate(full - 1);
    let mut st2 = KvStore::open(segs).expect("a torn tail does not prevent opening");
    assert_eq!(st2.get(s("k")).unwrap(), None);
    st2.set(s("k"), s("v2")).unwrap();
    assert_eq!(st2.get(s("k")).unwrap(), Some(s("v2")));
    let mut st3 = reopen(st2);
    assert_eq!(st3.get(s("k")).unwrap(), Some(s("v2")));
}

#[test]
fn torn_tail_keeps_whole_records() {
    let mut st = open_empty();
    st.set(s("a"), s("1")).unwrap();
    st.set(s("b"), s("2")).unwrap();
    let mut segs = st.into_segments();
    let full = segs[0].data.len();
    segs[0].data.truncate(full - 3);
    let mut st2 = KvStore::open(segs).unwrap();
    assert_eq!(st2.get(s("a")).unwrap(), Some(s("1")));
    assert_eq!(st2.get(s("b")).unwrap(), None);
}

#[test]
fn corrupt_record_refuses_to_open() {
    // a complete frame whose payload is not a record encoding: 0xc1 is the
    // one byte MessagePack never uses
    let mut data = kvs::frame::u64_to_be_bytes(1);
    data.push(0xc1);
    // a valid record after the corrupt one makes the corruption mid-segment
    let mut w = kvs::writer::Writer::new(data);
    w.write_record(&Record {
        timestamp: 1,
        tombstone: 0,
        key: s("k"),
        value: s("v"),
    })
    .unwrap();
    let data = w.bytes().clone();
    let r = KvStore::open(vec![Segment { seq: 0, data }]);
    assert!(matches!(r, Err(KvsError::Io)));
}

#[test]
fn timestamp_ceiling_refuses_to_open() {
    let mut w = kvs::writer::Writer::new(Vec::new());
    w.write_record(&Record {
        timestamp: u64::MAX,
        tombstone: 0,
        key: s("k"),
        value: s("v"),
    })
    .unwrap();
    let data = w.bytes().clone();
    let r = KvStore::open(vec![Segment { seq: 0, data }]);
    assert!(matches!(r, Err(KvsError::Unknown)));
}

#[test]
fn timestamps_strictly_increase_across_reopen() {
    let mut st = open_empty();
    st.set(s("a"), s("1")).unwrap();
    st.set(s("b"), s("2")).unwrap();
    st.remove(s("a")).unwrap();
    let mut st2 = reopen(st);
    st2.set(s("c"), s("3")).unwrap();
    st2.set(s("a"), s("4")).unwrap();
    let segs = st2.into_segments();
    let recs = all_records(&segs);
    assert_eq!(recs.len(), 5);
    for w in recs.windows(2) {
        assert!(
            w[0].timestamp < w[1].timestamp,
            "each record is strictly newer than every earlier one"
        );
    }
}

#[test]
fn unsorted_segments_are_mounted_in_order() {
    let mut st = open_empty();
    let value = "y".repeat(200);
    for i in 0..20 {
        st.set(format!("k{}", i % 4), format!("{}{}", value, i)).unwrap();
    }
    let mut segs = st.into_segments();
    segs.reverse();
    let mut st2 = KvStore::open(segs).unwrap();
    for i in 0..4 {
        let expect = format!("{}{}", value, 16 + i);
        assert_eq!(st2.get(format!("k{}", i)).unwrap(), Some(expect));
    }
}
