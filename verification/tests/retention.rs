use hcriu::record::CheckpointMeta;
use hcriu::retention::{select, Policy};

fn rec(id: &str, pid: i32, dump_time: &str) -> CheckpointMeta {
    CheckpointMeta {
        checkpoint_id: String::from(id),
        pid,
        cmd: String::from("cmd"),
        tag: String::from("t"),
        dump_time: String::from(dump_time),
    }
}

fn ids(v: &[CheckpointMeta]) -> Vec<String> {
    v.iter().map(|r| r.checkpoint_id.clone()).collect()
}

#[test]
fn latest_only_keeps_the_maximum_time() {
    let records = vec![
        rec("a", 1, "2024-01-01T10:00Z"),
        rec("b", 1, "2024-01-02T10:00Z"),
    ];
    let (keep, discard) = select(records, Policy::LatestOnly);
    assert_eq!(ids(&keep), vec!["b"]);
    assert_eq!(ids(&discard), vec!["a"]);
}

#[test]
fn latest_only_ignores_input_order() {
    let records = vec![
        rec("b", 1, "2024-01-02T10:00Z"),
        rec("a", 1, "2024-01-01T10:00Z"),
    ];
    let (keep, discard) = select(records, Policy::LatestOnly);
    assert_eq!(ids(&keep), vec!["b"]);
    assert_eq!(ids(&discard), vec!["a"]);
}

#[test]
fn daily_bucket_keeps_latest_of_each_day() {
    let records = vec![
        rec("early", 1, "2024-01-01T08:00Z"),
        rec("late", 1, "2024-01-01T20:00Z"),
        rec("next", 1, "2024-01-02T05:00Z"),
    ];
    let (keep, discard) = select(records, Policy::DailyBucket);
    assert_eq!(ids(&keep), vec!["late", "next"]);
    assert_eq!(ids(&discard), vec!["early"]);
}

#[test]
fn hourly_bucket_keeps_latest_of_each_hour() {
    let records = vec![
        rec("h1a", 1, "2024-01-01 08:10:00 UTC"),
        rec("h1b", 1, "2024-01-01 08:50:00 UTC"),
        rec("h2", 1, "2024-01-01 09:05:00 UTC"),
        rec("d2", 1, "2024-01-02 08:30:00 UTC"),
    ];
    let (keep, discard) = select(records, Policy::HourlyBucket);
    assert_eq!(ids(&keep), vec!["h1b", "h2", "d2"]);
    assert_eq!(ids(&discard), vec!["h1a"]);
}

#[test]
fn single_record_survives_every_policy() {
    for policy in [Policy::LatestOnly, Policy::DailyBucket, Policy::HourlyBucket] {
        let records = vec![rec("only", 1, "2024-01-01T10:00Z")];
        let (keep, discard) = select(records, policy);
        assert_eq!(ids(&keep), vec!["only"]);
        assert!(discard.is_empty());
    }
}

#[test]
fn empty_input_selects_nothing() {
    let (keep, discard) = select(Vec::new(), Policy::LatestOnly);
    assert!(keep.is_empty());
    assert!(discard.is_empty());
}

#[test]
fn select_outputs_are_time_ordered() {
    let records = vec![
        rec("c", 1, "2024-01-03T10:00Z"),
        rec("a", 1, "2024-01-01T10:00Z"),
        rec("b", 1, "2024-01-02T10:00Z"),
        rec("a2", 1, "2024-01-01T11:00Z"),
    ];
    let (keep, discard) = select(records, Policy::DailyBucket);
    assert_eq!(ids(&keep), vec!["a2", "b", "c"]);
    assert_eq!(ids(&discard), vec!["a"]);
}
