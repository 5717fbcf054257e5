use kvs::config::StoreOptions;
use kvs::store::Store;

fn fresh() -> Store {
    Store::open(StoreOptions::default(), &[]).unwrap()
}

#[test]
fn set_get_roundtrip() {
    let mut s = fresh();

    s.set(b"score", b"12").unwrap();
    assert_eq!(s.get(b"score").unwrap(), b"12");
}

#[test]
fn overwrite_last_write_wins() {
    let mut s = fresh();

    s.set(b"k", b"v1").unwrap();
    s.set(b"k", b"v2").unwrap();
    assert_eq!(s.get(b"k").unwrap(), b"v2");
}

#[test]
fn del_removes_key() {
    let mut s = fresh();

    s.set(b"a", b"1").unwrap();
    let (existed, _) = s.del(b"a").unwrap();
    assert!(existed);
    assert!(s.get(b"a").is_none());
}

#[test]
fn del_missing_returns_false_and_keeps_missing() {
    let mut s = fresh();

    let (existed, _) = s.del(b"nope").unwrap();
    assert!(!existed);
    assert!(s.get(b"nope").is_none());
}

#[test]
fn reopen_replays_state() {
    let mut log: Vec<u8> = Vec::new();
    {
        let mut s = fresh();
        log.extend(s.set(b"a", b"1").unwrap().record);
        log.extend(s.set(b"b", b"2").unwrap().record);
        log.extend(s.del(b"a").unwrap().1.record);
    }

    {
        let s = Store::open(StoreOptions::default(), &log).unwrap();
        assert!(s.get(b"a").is_none());
        assert_eq!(s.get(b"b").unwrap(), b"2");
    }
}

#[test]
fn torn_tail_is_truncated_and_does_not_lose_prior_records() {
    let mut log: Vec<u8> = Vec::new();
    {
        let mut s = fresh();
        log.extend(s.set(b"a", b"1").unwrap().record);
        log.extend(s.set(b"b", b"2").unwrap().record);
        log.extend(s.set(b"c", b"3").unwrap().record);
    }

    // A crash in the middle of the last append: its final three bytes are lost.
    let full_len = log.len();
    let torn = &log[..full_len - 3];

    {
        let s = Store::open(StoreOptions::default(), torn).unwrap();
        assert_eq!(s.get(b"a").unwrap(), b"1");
        assert_eq!(s.get(b"b").unwrap(), b"2");
        assert!(s.get(b"c").is_none());
        let truncated_len = s.log_size() as usize;
        assert!(truncated_len <= full_len);
        // Each of these records is 1 + 4 + 1 + 4 + 1 bytes long.
        assert_eq!(truncated_len, 22);
    }
}

#[test]
fn scan_prefix_returns_sorted_matches() {
    let mut s = fresh();

    s.set(b"app", b"1").unwrap();
    s.set(b"apple", b"2").unwrap();
    s.set(b"banana", b"3").unwrap();
    s.set(b"apricot", b"4").unwrap();

    let filtered_keys = s.scan_prefix_str(Some("ap"));
    assert_eq!(filtered_keys, ["app", "apple", "apricot"]);

    let all_keys = s.scan_prefix_str(None);
    assert_eq!(all_keys, ["app", "apple", "apricot", "banana"]);
}
