use kvs::codec::{encode_del, encode_set, read_u32, write_u32};
use kvs::config::{Durability, StoreOptions};
use kvs::error::StoreError;
use kvs::index::{compare_keys, Index};
use kvs::replay::replay_into;
use kvs::snapshot::{encode_snapshot, load_snapshot};
use kvs::store::{validate_kv, Store};

fn fresh() -> Store {
    Store::open(StoreOptions::default(), &[]).unwrap()
}

fn opts(d: Durability, max: Option<u64>) -> StoreOptions {
    StoreOptions::new(d, max).unwrap()
}

#[test]
fn set_del_then_reopen_leaves_key_absent() {
    let mut s = fresh();
    let mut log: Vec<u8> = Vec::new();
    log.extend(s.set(b"a", b"1").unwrap().record);
    log.extend(s.set(b"a", b"2").unwrap().record);
    log.extend(s.del(b"a").unwrap().1.record);
    let r = Store::open(StoreOptions::default(), &log).unwrap();
    assert!(r.get(b"a").is_none());
    assert_eq!(r.len(), 0);
    assert_eq!(r.log_size() as usize, log.len());
}

#[test]
fn last_write_wins_after_reopen() {
    let mut s = fresh();
    let mut log: Vec<u8> = Vec::new();
    log.extend(s.set(b"k", b"v1").unwrap().record);
    log.extend(s.set(b"k", b"v2").unwrap().record);
    let r = Store::open(StoreOptions::default(), &log).unwrap();
    assert_eq!(r.get(b"k").unwrap(), b"v2");
}

#[test]
fn repeated_delete_of_absent_key_returns_false() {
    let mut s = fresh();
    s.set(b"x", b"y").unwrap();
    assert!(s.del(b"x").unwrap().0);
    assert!(!s.del(b"x").unwrap().0);
    assert!(!s.del(b"x").unwrap().0);
    assert_eq!(s.len(), 0);
}

#[test]
fn empty_key_is_rejected_without_change() {
    let mut s = fresh();
    s.set(b"a", b"1").unwrap();
    let before = s.log_size();
    let e = s.set(b"", b"v").err().unwrap();
    assert!(matches!(e, StoreError::InvalidInput { .. }));
    assert_eq!(s.log_size(), before);
    assert_eq!(s.len(), 1);
    assert!(matches!(s.del(b"").err().unwrap(), StoreError::InvalidInput { .. }));
}

#[test]
fn oversized_key_and_value_are_rejected() {
    let mut s = fresh();
    let long_key = vec![7u8; 1025];
    assert!(matches!(s.set(&long_key, b"v").err().unwrap(), StoreError::InvalidInput { .. }));
    let big_value = vec![0u8; 1048577];
    assert!(matches!(s.set(b"k", &big_value).err().unwrap(), StoreError::InvalidInput { .. }));
    assert_eq!(s.len(), 0);
    assert_eq!(s.log_size(), 0);
}

#[test]
fn largest_key_and_value_are_accepted() {
    let mut s = fresh();
    let key = vec![7u8; 1024];
    let value = vec![1u8; 1048576];
    let a = s.set(&key, &value).unwrap();
    assert_eq!(a.record.len(), 1 + 4 + 1024 + 4 + 1048576);
    let r = Store::open(StoreOptions::default(), &a.record).unwrap();
    assert_eq!(r.get(&key).unwrap().len(), 1048576);
}

#[test]
fn validate_kv_checks_each_limit() {
    assert!(validate_kv(b"k", Some(b"v")).is_ok());
    assert!(validate_kv(b"k", None).is_ok());
    assert!(validate_kv(b"", None).is_err());
    assert!(validate_kv(&vec![1u8; 1025], None).is_err());
    assert!(validate_kv(b"k", Some(&vec![1u8; 1048577])).is_err());
}

#[test]
fn set_record_has_the_documented_bytes() {
    assert_eq!(encode_set(b"ab", b"xyz"), vec![1, 2, 0, 0, 0, b'a', b'b', 3, 0, 0, 0, b'x', b'y', b'z']);
    assert_eq!(encode_del(b"ab"), vec![2, 2, 0, 0, 0, b'a', b'b']);
}

#[test]
fn u32_is_little_endian() {
    let mut out = vec![9u8];
    write_u32(&mut out, 0x01020304);
    assert_eq!(out, vec![9, 4, 3, 2, 1]);
    assert_eq!(read_u32(&out, 1), 0x01020304);
}

#[test]
fn unknown_opcode_is_corrupt() {
    let log = vec![9u8, 1, 0, 0, 0, b'k'];
    let e = Store::open(StoreOptions::default(), &log).err().unwrap();
    assert!(e.is_corrupt_log());
}

#[test]
fn zero_key_length_is_corrupt() {
    let log = vec![1u8, 0, 0, 0, 0, 0, 0, 0, 0];
    let e = Store::open(StoreOptions::default(), &log).err().unwrap();
    assert!(e.is_corrupt_log());
}

#[test]
fn oversized_value_length_is_corrupt() {
    let log = vec![1u8, 1, 0, 0, 0, b'k', 0xff, 0xff, 0xff, 0xff];
    let e = Store::open(StoreOptions::default(), &log).err().unwrap();
    assert!(e.is_corrupt_log());
}

#[test]
fn cut_inside_first_record_leaves_empty_store() {
    let log = encode_set(b"key", b"value");
    for cut in 1..log.len() {
        let s = Store::open(StoreOptions::default(), &log[..cut]).unwrap();
        assert_eq!(s.len(), 0);
        assert_eq!(s.log_size(), 0);
    }
}

#[test]
fn replay_into_reports_valid_length() {
    let mut log = encode_set(b"a", b"1");
    log.extend(encode_del(b"a"));
    log.extend(encode_set(b"b", b"2"));
    let full = log.len();
    log.push(1);
    let mut index = Index::new();
    assert_eq!(replay_into(&log, &mut index).unwrap(), full);
    assert!(index.get(b"a").is_none());
    assert_eq!(index.get(b"b").unwrap(), b"2");
}

#[test]
fn snapshot_then_reopen_gives_same_state() {
    let mut s = fresh();
    s.set(b"b", b"2").unwrap();
    s.set(b"a", b"1").unwrap();
    s.set(b"c", b"3").unwrap();
    s.del(b"c").unwrap();
    let plan = s.begin_snapshot().unwrap();
    assert_eq!(plan.number, 1);
    assert_eq!(s.snapshot_number(), 1);
    assert_eq!(s.log_size(), 0);
    let r = Store::open_from_snapshot(StoreOptions::default(), plan.number, &plan.contents, &[]).unwrap();
    assert_eq!(r.len(), 2);
    assert_eq!(r.get(b"a").unwrap(), b"1");
    assert_eq!(r.get(b"b").unwrap(), b"2");
    assert!(r.get(b"c").is_none());
    assert_eq!(r.snapshot_number(), 1);
}

#[test]
fn snapshot_plus_log_replays_on_top() {
    let mut s = fresh();
    s.set(b"a", b"1").unwrap();
    let plan = s.begin_snapshot().unwrap();
    let mut log: Vec<u8> = Vec::new();
    log.extend(s.set(b"a", b"9").unwrap().record);
    log.extend(s.set(b"z", b"26").unwrap().record);
    let r = Store::open_from_snapshot(StoreOptions::default(), plan.number, &plan.contents, &log).unwrap();
    assert_eq!(r.get(b"a").unwrap(), b"9");
    assert_eq!(r.get(b"z").unwrap(), b"26");
}

#[test]
fn snapshot_holds_entries_in_key_order() {
    let mut index = Index::new();
    index.insert(b"b".to_vec(), b"2".to_vec());
    index.insert(b"a".to_vec(), b"1".to_vec());
    let bytes = encode_snapshot(&index);
    assert_eq!(bytes, vec![1, 0, 0, 0, b'a', 1, 0, 0, 0, b'1', 1, 0, 0, 0, b'b', 1, 0, 0, 0, b'2']);
    let mut back = Index::new();
    load_snapshot(&bytes, &mut back).unwrap();
    assert_eq!(back.len_keys(), 2);
}

#[test]
fn short_snapshot_is_corrupt() {
    let mut index = Index::new();
    let e = load_snapshot(&[1, 0, 0, 0, b'a', 1, 0], &mut index).err().unwrap();
    assert!(e.is_corrupt_log());
    let e = Store::open_from_snapshot(StoreOptions::default(), 1, &[1, 0, 0], &[]).err().unwrap();
    assert!(e.is_corrupt_log());
}

#[test]
fn fsync_every_n_zero_is_rejected() {
    let e = StoreOptions::new(Durability::FsyncEveryN(0), None).err().unwrap();
    assert!(matches!(e, StoreError::InvalidInput { .. }));
    let bad = StoreOptions { durability: Durability::FsyncEveryN(0), max_log_size: None };
    assert!(matches!(Store::open(bad, &[]).err().unwrap(), StoreError::InvalidInput { .. }));
}

#[test]
fn flush_mode_never_syncs() {
    let mut s = Store::open(opts(Durability::Flush, None), &[]).unwrap();
    for i in 0..5u8 {
        assert!(!s.set(&[b'k', i], b"v").unwrap().sync);
    }
    assert!(!s.shutdown());
}

#[test]
fn fsync_always_syncs_every_write() {
    let mut s = Store::open(opts(Durability::FsyncAlways, None), &[]).unwrap();
    assert!(s.set(b"a", b"1").unwrap().sync);
    assert!(s.del(b"a").unwrap().1.sync);
    assert!(s.shutdown());
}

#[test]
fn fsync_every_n_syncs_each_nth_write() {
    let mut s = Store::open(opts(Durability::FsyncEveryN(3), None), &[]).unwrap();
    let syncs: Vec<bool> = (0..7u8).map(|i| s.set(&[b'k', i], b"v").unwrap().sync).collect();
    assert_eq!(syncs, vec![false, false, true, false, false, true, false]);
    assert!(s.shutdown());
}

#[test]
fn snapshot_is_due_at_the_log_threshold() {
    let mut s = Store::open(opts(Durability::Flush, Some(22)), &[]).unwrap();
    assert!(!s.set(b"a", b"1").unwrap().snapshot_due);
    assert!(s.set(b"b", b"2").unwrap().snapshot_due);
    s.begin_snapshot().unwrap();
    assert!(!s.set(b"c", b"3").unwrap().snapshot_due);
}

#[test]
fn open_counts_existing_log_toward_threshold() {
    let mut log = encode_set(b"a", b"1");
    log.extend(encode_set(b"b", b"2"));
    let mut s = Store::open(opts(Durability::Flush, Some(30)), &log).unwrap();
    assert_eq!(s.log_size(), 22);
    assert!(s.set(b"c", b"3").unwrap().snapshot_due);
}

#[test]
fn non_utf8_key_is_reported_distinctly() {
    let mut s = fresh();
    s.set(&[0xff, 0xfe], b"v").unwrap();
    s.set(b"ok", b"v").unwrap();
    assert_eq!(s.scan_prefix_str(None), ["ok", "<non-utf8 key>"]);
}

#[test]
fn scan_prefix_gives_raw_keys_in_byte_order() {
    let mut s = fresh();
    s.set(b"b", b"1").unwrap();
    s.set(b"ab", b"1").unwrap();
    s.set(b"a", b"1").unwrap();
    s.set(b"ac", b"1").unwrap();
    assert_eq!(s.scan_prefix(b"a"), vec![b"a".to_vec(), b"ab".to_vec(), b"ac".to_vec()]);
    assert_eq!(s.scan_prefix(b"zz"), Vec::<Vec<u8>>::new());
    assert_eq!(s.scan_text(b"b"), ["b"]);
}

#[test]
fn compare_keys_is_bytewise() {
    assert!(compare_keys(b"ab", b"b") < 0);
    assert!(compare_keys(b"a", b"ab") < 0);
    assert!(compare_keys(b"ab", b"ab") == 0);
    assert!(compare_keys(b"\xff", b"a") > 0);
    assert!(compare_keys(b"", b"") == 0);
}

#[test]
fn error_messages_name_their_kind() {
    let e = StoreError::CorruptLog { msg: "bad".to_string() };
    assert_eq!(e.message(), "corrupt log: bad");
    let e = StoreError::InvalidInput { msg: "x".to_string() };
    assert_eq!(e.message(), "invalid input: x");
    let e = StoreError::StoreClosed { msg: "gone".to_string() };
    assert_eq!(e.message(), "store closed: gone");
    assert!(!e.is_corrupt_log());
    let e = StoreError::Io { msg: "disk full".to_string() };
    assert_eq!(e.message(), "disk full");
}

use kvs::coordinator::settle;

#[test]
fn unsent_or_unanswered_requests_fail_as_closed() {
    let r: Result<u8, StoreError> = settle(false, Some(Ok(1)));
    assert!(matches!(r, Err(StoreError::StoreClosed { .. })));
    let r: Result<u8, StoreError> = settle(true, None);
    assert!(matches!(r, Err(StoreError::StoreClosed { .. })));
    assert_eq!(settle(true, Some(Ok(7u8))).unwrap(), 7);
    let r: Result<u8, StoreError> = settle(true, Some(Err(StoreError::InvalidInput { msg: "k".to_string() })));
    assert!(matches!(r, Err(StoreError::InvalidInput { .. })));
}

#[test]
fn prepared_records_change_nothing() {
    let s = fresh();
    assert_eq!(Store::prepare_set(b"ab", b"xyz").unwrap(), encode_set(b"ab", b"xyz"));
    assert_eq!(Store::prepare_del(b"ab").unwrap(), encode_del(b"ab"));
    assert!(matches!(Store::prepare_set(b"", b"v").err().unwrap(), StoreError::InvalidInput { .. }));
    assert!(matches!(Store::prepare_del(&vec![0u8; 1025]).err().unwrap(), StoreError::InvalidInput { .. }));
    assert_eq!(s.len(), 0);
    assert_eq!(s.log_size(), 0);
}

#[test]
fn last_write_wins_among_other_records() {
    let mut log = encode_set(b"x", b"0");
    log.extend(encode_del(b"k"));
    log.extend(encode_set(b"k", b"v1"));
    log.extend(encode_set(b"k", b"v2"));
    log.extend(encode_set(b"y", b"1"));
    log.extend(encode_del(b"x"));
    let s = Store::open(StoreOptions::default(), &log).unwrap();
    assert_eq!(s.get(b"k").unwrap(), b"v2");
    assert_eq!(s.len(), 2);
}

#[test]
fn snapshot_clears_the_unsynced_count() {
    let mut s = Store::open(opts(Durability::FsyncEveryN(3), None), &[]).unwrap();
    assert!(!s.set(b"a", b"1").unwrap().sync);
    assert!(!s.set(b"b", b"2").unwrap().sync);
    s.begin_snapshot().unwrap();
    assert!(!s.set(b"c", b"3").unwrap().sync);
    assert!(!s.set(b"d", b"4").unwrap().sync);
    assert!(s.set(b"e", b"5").unwrap().sync);
}
