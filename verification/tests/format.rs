use kvs::frame::{u64_from_be_bytes, u64_to_be_bytes};
use kvs::reader::{read_record, ReadOutcome};
use kvs::record::Record;
use kvs::writer::Writer;
use kvs::{KvStore, Segment};

#[test]
fn length_prefix_is_big_endian() {
    let b = u64_to_be_bytes(0x0102030405060708);
    assert_eq!(b, vec![1u8, 2, 3, 4, 5, 6, 7, 8]);
    assert_eq!(u64_from_be_bytes(&b), 0x0102030405060708);
    assert_eq!(u64_to_be_bytes(7), vec![0u8, 0, 0, 0, 0, 0, 0, 7]);
}

#[test]
fn first_record_bytes_are_stable() {
    // set("k", "v") on a fresh store writes timestamp 1, tombstone 0, then
    // the two one-byte strings, as a MessagePack array of four elements
    // behind an 8-byte big-endian length prefix
    let mut st = KvStore::open(Vec::new()).unwrap();
    st.set("k".to_string(), "v".to_string()).unwrap();
    let segs = st.into_segments();
    assert_eq!(segs.len(), 1);
    assert_eq!(segs[0].seq, 0);
    assert_eq!(
        segs[0].data,
        vec![0u8, 0, 0, 0, 0, 0, 0, 7, 0x94, 0x01, 0x00, 0xa1, 0x6b, 0xa1, 0x76]
    );
}

#[test]
fn writer_output_reads_back() {
    let mut w = Writer::new(Vec::new());
    w.write_record(&Record {
        timestamp: 5,
        tombstone: 0,
        key: "alpha".to_string(),
        value: "one".to_string(),
    })
    .unwrap();
    w.write_record(&Record {
        timestamp: 6,
        tombstone: 1,
        key: "alpha".to_string(),
        value: "".to_string(),
    })
    .unwrap();
    let data = w.bytes();
    let (first, next) = match read_record(data.as_slice(), 0) {
        ReadOutcome::Rec(r, next) => (r, next),
        _ => panic!("first frame must decode"),
    };
    assert_eq!(first.timestamp, 5);
    assert_eq!(first.tombstone, 0);
    assert_eq!(first.key, "alpha".to_string());
    assert_eq!(first.value, "one".to_string());
    let (second, end) = match read_record(data.as_slice(), next) {
        ReadOutcome::Rec(r, next) => (r, next),
        _ => panic!("second frame must decode"),
    };
    assert_eq!(second.timestamp, 6);
    assert_eq!(second.tombstone, 1);
    assert_eq!(second.key, "alpha".to_string());
    assert_eq!(second.value, "".to_string());
    assert_eq!(end, data.len());
    assert!(matches!(read_record(data.as_slice(), end), ReadOutcome::End));
}

#[test]
fn record_new_is_an_empty_put() {
    let r = Record::new();
    assert_eq!(r.timestamp, 0);
    assert_eq!(r.tombstone, 0);
    assert_eq!(r.key, String::new());
    assert_eq!(r.value, String::new());
}

#[test]
fn segment_file_names_parse() {
    assert_eq!(kvs::parse_segment_file_name("00000000.bcd"), Some(0));
    assert_eq!(kvs::parse_segment_file_name("00000012.bcd"), Some(12));
    assert_eq!(kvs::parse_segment_file_name("99999999.bcd"), Some(99999999));
    assert_eq!(kvs::parse_segment_file_name("0000001.bcd"), None);
    assert_eq!(kvs::parse_segment_file_name("000000012.bcd"), None);
    assert_eq!(kvs::parse_segment_file_name("0000001x.bcd"), None);
    assert_eq!(kvs::parse_segment_file_name("00000001.tmp"), None);
    assert_eq!(kvs::parse_segment_file_name("00000001.bcde"), None);
    assert_eq!(kvs::parse_segment_file_name(""), None);
}

#[test]
fn short_prefix_reads_as_end() {
    let seg = Segment { seq: 3, data: vec![0u8, 0, 0] };
    assert!(matches!(read_record(seg.data.as_slice(), 0), ReadOutcome::End));
}
