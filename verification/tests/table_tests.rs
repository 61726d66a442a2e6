use lsmstore::bucket_iter::BucketIter;
use lsmstore::store::Bucket;
use lsmstore::table::{TableBuilder, TableBuilderOptions, TableReader};
use lsmstore::{Entry, Key, ValueType};

fn key(uk: &str, ts: u64, vt: ValueType) -> Key {
    Key { user_key: uk.as_bytes().to_vec(), timestamp: ts, value_type: vt }
}

fn entry(uk: &str, ts: u64, vt: ValueType, v: Option<&str>) -> Entry {
    Entry { key: key(uk, ts, vt), value: v.map(|s| s.as_bytes().to_vec()) }
}

fn build(entries: Vec<Entry>) -> (lsmstore::TableDesc, Vec<u8>) {
    let mut b = TableBuilder::new(TableBuilderOptions { block_size: 64 });
    for e in entries {
        b.add(e.key, e.value).expect("keys are strictly increasing");
    }
    b.finish()
}

#[test]
fn round_trip_identical() {
    let es = vec![
        entry("a", 10, ValueType::Put, Some("x")),
        entry("a", 5, ValueType::Put, Some("old")),
        entry("b", 10, ValueType::Put, Some("y")),
        entry("c", 7, ValueType::Delete, None),
    ];
    let (desc, data) = build(es.clone());
    assert_eq!(desc.table_size as usize, data.len());
    let reader = TableReader::open(data).expect("a finished table opens");
    let back = reader.read_all().expect("a finished table reads back");
    assert_eq!(back.len(), es.len());
    for (a, b) in back.iter().zip(es.iter()) {
        assert_eq!(a.key.user_key, b.key.user_key);
        assert_eq!(a.key.timestamp, b.key.timestamp);
        assert_eq!(a.value, b.value);
    }
}

#[test]
fn reopen_rereads_identically() {
    let es = vec![entry("k1", 3, ValueType::Put, Some("v1")), entry("k2", 3, ValueType::Put, Some("v2"))];
    let (_, data) = build(es);
    let r1 = TableReader::open(data.clone()).unwrap().read_all().unwrap();
    let r2 = TableReader::open(data).unwrap().read_all().unwrap();
    assert_eq!(r1.len(), r2.len());
    for (a, b) in r1.iter().zip(r2.iter()) {
        assert_eq!(a.key.user_key, b.key.user_key);
        assert_eq!(a.value, b.value);
    }
}

#[test]
fn desc_bounds_are_first_and_last_key() {
    let es = vec![entry("aa", 9, ValueType::Put, Some("1")), entry("zz", 2, ValueType::Put, Some("2"))];
    let (desc, data) = build(es);
    assert_eq!(desc.table_size as usize, data.len());
    // The bounds hold the encoded keys: user key, then timestamp, then tag.
    assert!(desc.lower_bound.starts_with(b"aa"));
    assert!(desc.upper_bound.starts_with(b"zz"));
}

#[test]
fn scenario_build_get() {
    let es = vec![entry("a", 10, ValueType::Put, Some("x")), entry("b", 10, ValueType::Put, Some("y"))];
    let (_, data) = build(es);
    let reader = TableReader::open(data).unwrap();
    let hit = reader.get(&b"a".to_vec(), 10).unwrap();
    assert_eq!(hit.unwrap().value, Some(b"x".to_vec()));
    let miss = reader.get(&b"c".to_vec(), 10).unwrap();
    assert!(miss.is_none());
}

#[test]
fn get_returns_newest_visible_version() {
    let es = vec![
        entry("a", 10, ValueType::Put, Some("new")),
        entry("a", 5, ValueType::Put, Some("old")),
    ];
    let (_, data) = build(es);
    let reader = TableReader::open(data).unwrap();
    assert_eq!(reader.get(&b"a".to_vec(), 20).unwrap().unwrap().value, Some(b"new".to_vec()));
    assert_eq!(reader.get(&b"a".to_vec(), 7).unwrap().unwrap().value, Some(b"old".to_vec()));
    assert!(reader.get(&b"a".to_vec(), 3).unwrap().is_none());
}

#[test]
fn scenario_out_of_order_rejected() {
    let mut b = TableBuilder::new(TableBuilderOptions::default());
    b.add(key("a", 5, ValueType::Put), Some(b"old".to_vec())).unwrap();
    let err = b.add(key("a", 10, ValueType::Put), Some(b"new".to_vec())).unwrap_err();
    assert!(matches!(err, lsmstore::Error::InvalidArgument(_)));
}

#[test]
fn corrupted_footer_is_rejected() {
    let (_, mut data) = build(vec![entry("a", 1, ValueType::Put, Some("x"))]);
    let n = data.len();
    data[n - 1] ^= 0xff;
    assert!(matches!(TableReader::open(data), Err(lsmstore::Error::Corrupted(_))));
    assert!(matches!(
        TableReader::open(Vec::new()),
        Err(lsmstore::Error::Corrupted(_))
    ));
}

#[test]
fn bucket_flush_get_and_ordered_scan() {
    let mut bucket = Bucket::new(TableBuilderOptions::default());
    bucket
        .flush(vec![entry("a", 10, ValueType::Put, Some("x")), entry("m", 10, ValueType::Put, Some("y"))])
        .unwrap();
    bucket
        .flush(vec![entry("n", 10, ValueType::Put, Some("z")), entry("z", 10, ValueType::Put, Some("w"))])
        .unwrap();
    assert_eq!(bucket.get(&b"a".to_vec(), 10).unwrap().unwrap().value, Some(b"x".to_vec()));
    assert_eq!(bucket.get(&b"z".to_vec(), 10).unwrap().unwrap().value, Some(b"w".to_vec()));
    assert!(bucket.get(&b"q".to_vec(), 10).unwrap().is_none());
    let mut it: BucketIter = bucket.scan().unwrap();
    let all = it.collect_remaining();
    let keys: Vec<Vec<u8>> = all.iter().map(|e| e.key.user_key.clone()).collect();
    assert_eq!(keys, vec![b"a".to_vec(), b"m".to_vec(), b"n".to_vec(), b"z".to_vec()]);
}

#[test]
fn newest_table_wins_on_same_user_key() {
    let mut bucket = Bucket::new(TableBuilderOptions::default());
    bucket.flush(vec![entry("a", 10, ValueType::Put, Some("first"))]).unwrap();
    bucket.flush(vec![entry("a", 10, ValueType::Put, Some("second"))]).unwrap();
    assert_eq!(
        bucket.get(&b"a".to_vec(), 10).unwrap().unwrap().value,
        Some(b"second".to_vec())
    );
}

#[test]
fn scan_keeps_its_snapshot_across_installs() {
    let mut bucket = Bucket::new(TableBuilderOptions::default());
    bucket.flush(vec![entry("a", 1, ValueType::Put, Some("1"))]).unwrap();
    let mut scan_v1 = bucket.scan().unwrap();
    bucket.flush(vec![entry("b", 1, ValueType::Put, Some("2"))]).unwrap();
    let v1 = scan_v1.collect_remaining();
    assert_eq!(v1.len(), 1);
    assert_eq!(v1[0].key.user_key, b"a".to_vec());
    let mut scan_v2 = bucket.scan().unwrap();
    let v2 = scan_v2.collect_remaining();
    assert_eq!(v2.len(), 2);
}

#[test]
fn empty_flush_is_invalid() {
    let mut bucket = Bucket::new(TableBuilderOptions::default());
    assert!(matches!(
        bucket.flush(Vec::new()),
        Err(lsmstore::Error::InvalidArgument(_))
    ));
}

#[test]
fn tombstones_survive_the_round_trip() {
    let es = vec![entry("a", 2, ValueType::Delete, None), entry("a", 1, ValueType::Put, Some(""))];
    let (_, data) = build(es);
    let back = TableReader::open(data).unwrap().read_all().unwrap();
    assert_eq!(back[0].value, None);
    assert_eq!(back[1].value, Some(Vec::new()));
}
