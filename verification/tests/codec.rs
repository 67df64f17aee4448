use hcriu::codec::{parse, serialize};
use hcriu::num::fmt_i32;
use hcriu::errors::StoreError;
use hcriu::record::CheckpointMeta;

fn rec(id: &str, pid: i32, cmd: &str, tag: &str, dump_time: &str) -> CheckpointMeta {
    CheckpointMeta {
        checkpoint_id: String::from(id),
        pid,
        cmd: String::from(cmd),
        tag: String::from(tag),
        dump_time: String::from(dump_time),
    }
}

#[test]
fn serialized_form_is_pinned() {
    let r = rec("abc123", 42, "ls -la", "daily", "2024-01-01 10:00:00 UTC");
    let text = serialize(&r);
    assert_eq!(
        text,
        "checkpoint_id = abc123\npid = 42\ncmd = ls -la\ntag = daily\ndump_time = 2024-01-01 10:00:00 UTC\n"
    );
}

#[test]
fn round_trip_plain_record() {
    let r = rec("abc123", 42, "ls -la", "daily", "2024-01-01 10:00:00 UTC");
    let back = parse(serialize(&r).as_str()).unwrap();
    assert_eq!(back, r);
}

#[test]
fn round_trip_whitespace_and_non_ascii() {
    let r = rec(
        "deadbeef",
        7,
        "python3 -c \"print('héllo wörld — ☃')\"",
        "tag with spaces",
        "2024-06-30 23:59:59.123456789 UTC",
    );
    let back = parse(serialize(&r).as_str()).unwrap();
    assert_eq!(back, r);
}

#[test]
fn round_trip_backslash_and_newline() {
    let r = rec("id0001", 9, "echo a\\b \\n c\nnext line", "t\\n", "2024-01-01 00:00:00 UTC");
    let text = serialize(&r);
    let back = parse(text.as_str()).unwrap();
    assert_eq!(back, r);
}

#[test]
fn round_trip_negative_and_extreme_pids() {
    for pid in [0, -1, 7, i32::MAX, i32::MIN] {
        let r = rec("x_id", pid, "cmd", "t", "2024-01-01 00:00:00 UTC");
        let back = parse(serialize(&r).as_str()).unwrap();
        assert_eq!(back, r);
    }
}

#[test]
fn parse_rejects_empty_text() {
    assert!(matches!(parse(""), Err(StoreError::Corrupt)));
}

#[test]
fn parse_rejects_wrong_key_order() {
    let text = "pid = 42\ncheckpoint_id = abc\ncmd = c\ntag = t\ndump_time = d\n";
    assert!(matches!(parse(text), Err(StoreError::Corrupt)));
}

#[test]
fn parse_rejects_missing_field() {
    let text = "checkpoint_id = abc\npid = 42\ncmd = c\ntag = t\n";
    assert!(matches!(parse(text), Err(StoreError::Corrupt)));
}

#[test]
fn parse_rejects_trailing_garbage() {
    let text =
        "checkpoint_id = abc\npid = 42\ncmd = c\ntag = t\ndump_time = d\nextra = e\n";
    assert!(matches!(parse(text), Err(StoreError::Corrupt)));
}

#[test]
fn parse_rejects_bad_escape() {
    let text = "checkpoint_id = a\\qb\npid = 42\ncmd = c\ntag = t\ndump_time = d\n";
    assert!(matches!(parse(text), Err(StoreError::Corrupt)));
}

#[test]
fn parse_rejects_unterminated_value() {
    let text = "checkpoint_id = abc\npid = 42\ncmd = c\ntag = t\ndump_time = d";
    assert!(matches!(parse(text), Err(StoreError::Corrupt)));
}

#[test]
fn parse_rejects_pid_out_of_range() {
    let text = "checkpoint_id = abc\npid = 99999999999\ncmd = c\ntag = t\ndump_time = d\n";
    assert!(matches!(parse(text), Err(StoreError::Corrupt)));
    let low = "checkpoint_id = abc\npid = -2147483649\ncmd = c\ntag = t\ndump_time = d\n";
    assert!(matches!(parse(low), Err(StoreError::Corrupt)));
}

#[test]
fn parse_accepts_pid_range_limits() {
    let hi = "checkpoint_id = abc\npid = 2147483647\ncmd = c\ntag = t\ndump_time = d\n";
    assert_eq!(parse(hi).unwrap().pid, i32::MAX);
    let lo = "checkpoint_id = abc\npid = -2147483648\ncmd = c\ntag = t\ndump_time = d\n";
    assert_eq!(parse(lo).unwrap().pid, i32::MIN);
}

#[test]
fn parse_rejects_non_canonical_pid() {
    let zero_padded = "checkpoint_id = abc\npid = 007\ncmd = c\ntag = t\ndump_time = d\n";
    assert!(matches!(parse(zero_padded), Err(StoreError::Corrupt)));
    let neg_zero = "checkpoint_id = abc\npid = -0\ncmd = c\ntag = t\ndump_time = d\n";
    assert!(matches!(parse(neg_zero), Err(StoreError::Corrupt)));
    let empty = "checkpoint_id = abc\npid = \ncmd = c\ntag = t\ndump_time = d\n";
    assert!(matches!(parse(empty), Err(StoreError::Corrupt)));
}

#[test]
fn parse_accepts_zero_pid() {
    let text = "checkpoint_id = abc\npid = 0\ncmd = c\ntag = t\ndump_time = d\n";
    assert_eq!(parse(text).unwrap().pid, 0);
}

#[test]
fn parse_reads_escapes_back() {
    let text = "checkpoint_id = a\\\\b\npid = 1\ncmd = line1\\nline2\ntag = t\ndump_time = d\n";
    let r = parse(text).unwrap();
    assert_eq!(r.checkpoint_id, "a\\b");
    assert_eq!(r.cmd, "line1\nline2");
}

#[test]
fn pid_decimal_form_is_canonical() {
    assert_eq!(fmt_i32(0), "0");
    assert_eq!(fmt_i32(-1), "-1");
    assert_eq!(fmt_i32(1000), "1000");
    assert_eq!(fmt_i32(i32::MAX), "2147483647");
    assert_eq!(fmt_i32(i32::MIN), "-2147483648");
}
