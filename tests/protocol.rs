use kvs::config::SnapshotMeta;
use kvs::manifest::{format_manifest, is_superseded, parse_decimal, parse_manifest, snapshot_file_name};
use kvs::protocol::{parse_command, Command};

#[test]
fn set_command_joins_the_value_words() {
    match parse_command(b"SET greeting  hello   big world\n") {
        Command::SetKey { key, value } => {
            assert_eq!(key, b"greeting");
            assert_eq!(value, b"hello big world");
        }
        _ => panic!("not a SET"),
    }
}

#[test]
fn get_and_del_take_a_key() {
    assert!(matches!(parse_command(b"GET k"), Command::GetKey { key } if key == b"k"));
    assert!(matches!(parse_command(b"\tDEL  k extra"), Command::DelKey { key } if key == b"k"));
}

#[test]
fn scan_takes_an_optional_prefix() {
    assert!(matches!(parse_command(b"SCAN"), Command::ScanKeys { prefix: None }));
    assert!(matches!(parse_command(b"SCAN ap"), Command::ScanKeys { prefix: Some(p) } if p == b"ap"));
}

#[test]
fn other_lines() {
    assert!(matches!(parse_command(b"SNAPSHOT"), Command::TakeSnapshot));
    assert!(matches!(parse_command(b"   \r\n"), Command::Blank));
    assert!(matches!(parse_command(b""), Command::Blank));
    assert!(matches!(parse_command(b"SET k"), Command::Invalid));
    assert!(matches!(parse_command(b"GET"), Command::Invalid));
    assert!(matches!(parse_command(b"set k v"), Command::Invalid));
    assert!(matches!(parse_command(b"FLUSH"), Command::Invalid));
}

#[test]
fn manifest_is_one_colon_separated_line() {
    let meta = SnapshotMeta {
        snapshot_number: 42,
        snapshot_path: "/data/snapshot-42.snap".to_string(),
        log_path: "/data/kv.log".to_string(),
    };
    let bytes = format_manifest(&meta).unwrap();
    assert_eq!(bytes, b"42:/data/snapshot-42.snap:/data/kv.log\n".to_vec());
    let back = parse_manifest(&bytes).unwrap();
    assert_eq!(back.snapshot_number, 42);
    assert_eq!(back.snapshot_path, "/data/snapshot-42.snap");
    assert_eq!(back.log_path, "/data/kv.log");
}

#[test]
fn malformed_manifests_are_corrupt() {
    assert!(parse_manifest(b"42:/a.snap\n").err().unwrap().is_corrupt_log());
    assert!(parse_manifest(b"42:/a.snap:/b.log:/c\n").err().unwrap().is_corrupt_log());
    assert!(parse_manifest(b"4x:/a.snap:/b.log\n").err().unwrap().is_corrupt_log());
    assert!(parse_manifest(b":/a.snap:/b.log\n").err().unwrap().is_corrupt_log());
    assert!(parse_manifest(b"99999999999999999999:/a:/b").err().unwrap().is_corrupt_log());
    assert!(parse_manifest(b"1:\xff:/b").err().unwrap().is_corrupt_log());
    assert_eq!(parse_manifest(b"7:a:b").unwrap().snapshot_number, 7);
}

#[test]
fn decimal_numbers() {
    assert_eq!(parse_decimal(b"0"), Some(0));
    assert_eq!(parse_decimal(b"18446744073709551615"), Some(u64::MAX));
    assert_eq!(parse_decimal(b"18446744073709551616"), None);
    assert_eq!(parse_decimal(b""), None);
    assert_eq!(parse_decimal(b"1-"), None);
}

#[test]
fn snapshot_files_are_numbered() {
    assert_eq!(snapshot_file_name(12), b"snapshot-12.snap".to_vec());
    assert_eq!(snapshot_file_name(0), b"snapshot-0.snap".to_vec());
    assert!(is_superseded(b"snapshot-3.snap", 4));
    assert!(!is_superseded(b"snapshot-4.snap", 4));
    assert!(!is_superseded(b"snapshot-.snap", 4));
    assert!(!is_superseded(b"snapshot-3.snap.tmp", 4));
    assert!(!is_superseded(b"kv.log", 4));
    assert!(is_superseded(b"snapshot-0003.snap", 4));
}

use kvs::error::StoreError;
use kvs::protocol::{render_reply, Reply};

#[test]
fn replies_are_single_lines() {
    assert_eq!(render_reply(&Reply::Stored), b"OK\n".to_vec());
    assert_eq!(render_reply(&Reply::Found(b"v 1".to_vec())), b"v 1\n".to_vec());
    assert_eq!(render_reply(&Reply::Missing), b"(nil)\n".to_vec());
    assert_eq!(render_reply(&Reply::Deleted(true)), b"1\n".to_vec());
    assert_eq!(render_reply(&Reply::Deleted(false)), b"0\n".to_vec());
    assert_eq!(render_reply(&Reply::Unknown), b"ERROR: invalid command\n".to_vec());
}

#[test]
fn scan_reply_lists_keys_then_ok() {
    let keys = vec!["app".to_string(), "apple".to_string()];
    assert_eq!(render_reply(&Reply::Keys(keys)), b"app\napple\nOK\n".to_vec());
    assert_eq!(render_reply(&Reply::Keys(Vec::new())), b"OK\n".to_vec());
}

#[test]
fn snapshot_reply_pads_to_four_digits() {
    assert_eq!(render_reply(&Reply::SnapshotTaken(7)), b"OK snapshot-0007\n".to_vec());
    assert_eq!(render_reply(&Reply::SnapshotTaken(12345)), b"OK snapshot-12345\n".to_vec());
}

#[test]
fn failure_reply_carries_the_error() {
    let e = StoreError::InvalidInput { msg: "key cannot be empty".to_string() };
    assert_eq!(render_reply(&Reply::Failed(e)), b"ERROR: invalid input: key cannot be empty\n".to_vec());
}

#[test]
fn manifest_must_be_one_printable_line() {
    assert!(parse_manifest(b"1:a:b\nc").err().unwrap().is_corrupt_log());
    assert!(parse_manifest(b"1:a:b\r\n").err().unwrap().is_corrupt_log());
    assert!(parse_manifest(b"1:a:b\n\n").err().unwrap().is_corrupt_log());
    assert!(parse_manifest("1:\u{e9}:b".as_bytes()).err().unwrap().is_corrupt_log());
    assert!(parse_manifest(b"1:a:b\n").is_ok());
}

#[test]
fn paths_that_cannot_stand_in_a_manifest_are_refused() {
    let colon = SnapshotMeta { snapshot_number: 1, snapshot_path: "c:/s.snap".to_string(), log_path: "/l".to_string() };
    assert!(matches!(format_manifest(&colon), Err(StoreError::InvalidInput { .. })));
    let newline = SnapshotMeta { snapshot_number: 1, snapshot_path: "/s".to_string(), log_path: "/l\nx".to_string() };
    assert!(matches!(format_manifest(&newline), Err(StoreError::InvalidInput { .. })));
}
