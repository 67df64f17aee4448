use hcriu::errors::StoreError;
use hcriu::merge::plan_merge;
use hcriu::record::CheckpointMeta;
use hcriu::retention::Policy;

fn rec(id: &str, pid: i32, tag: &str, dump_time: &str) -> CheckpointMeta {
    CheckpointMeta {
        checkpoint_id: String::from(id),
        pid,
        cmd: String::from("cmd"),
        tag: String::from(tag),
        dump_time: String::from(dump_time),
    }
}

fn ids(v: &[CheckpointMeta]) -> Vec<String> {
    v.iter().map(|r| r.checkpoint_id.clone()).collect()
}

fn store() -> Vec<CheckpointMeta> {
    vec![
        rec("a1", 10, "alpha", "2024-01-01T10:00Z"),
        rec("a2", 10, "alpha", "2024-01-02T10:00Z"),
        rec("a3", 11, "alpha", "2024-01-03T10:00Z"),
        rec("b1", 20, "beta", "2024-01-01T10:00Z"),
    ]
}

#[test]
fn merge_latest_only_keeps_one_of_the_tag() {
    let plan = plan_merge(store(), "alpha", None, Policy::LatestOnly).unwrap();
    assert_eq!(ids(&plan.keep), vec!["a3"]);
    assert_eq!(ids(&plan.discard), vec!["a1", "a2"]);
}

#[test]
fn merge_never_touches_other_tags() {
    let plan = plan_merge(store(), "alpha", None, Policy::LatestOnly).unwrap();
    for r in plan.keep.iter().chain(plan.discard.iter()) {
        assert_eq!(r.tag, "alpha");
        assert_ne!(r.checkpoint_id, "b1");
    }
}

#[test]
fn merge_pid_filter_narrows_the_family() {
    let plan = plan_merge(store(), "alpha", Some(10), Policy::LatestOnly).unwrap();
    assert_eq!(ids(&plan.keep), vec!["a2"]);
    assert_eq!(ids(&plan.discard), vec!["a1"]);
}

#[test]
fn merge_with_empty_filter_is_nothing_to_merge() {
    assert!(matches!(
        plan_merge(store(), "gamma", None, Policy::LatestOnly),
        Err(StoreError::NothingToMerge)
    ));
    assert!(matches!(
        plan_merge(store(), "alpha", Some(999), Policy::LatestOnly),
        Err(StoreError::NothingToMerge)
    ));
}

#[test]
fn dry_runs_repeat_identically_and_change_nothing() {
    let records = store();
    let first = plan_merge(records.clone(), "alpha", None, Policy::DailyBucket).unwrap();
    let second = plan_merge(records.clone(), "alpha", None, Policy::DailyBucket).unwrap();
    let third = plan_merge(records, "alpha", None, Policy::DailyBucket).unwrap();
    assert_eq!(ids(&first.keep), ids(&second.keep));
    assert_eq!(ids(&first.discard), ids(&second.discard));
    assert_eq!(ids(&first.keep), ids(&third.keep));
    assert_eq!(ids(&first.discard), ids(&third.discard));
}

#[test]
fn real_merge_converges_after_one_run() {
    let records = store();
    let plan = plan_merge(records.clone(), "alpha", None, Policy::LatestOnly).unwrap();
    assert!(plan.discard.len() > 0);
    // apply the plan: the discarded records disappear from the store
    let discarded: Vec<String> = ids(&plan.discard);
    let remaining: Vec<CheckpointMeta> = records
        .into_iter()
        .filter(|r| !discarded.contains(&r.checkpoint_id))
        .collect();
    // exactly one record of the tag remains
    let alpha_left =
        remaining.iter().filter(|r| r.tag == "alpha").count();
    assert_eq!(alpha_left, 1);
    // a second merge still finds the family but has nothing to remove
    let again = plan_merge(remaining, "alpha", None, Policy::LatestOnly).unwrap();
    assert_eq!(ids(&again.keep), vec!["a3"]);
    assert!(again.discard.is_empty());
}

#[test]
fn merge_daily_keeps_latest_per_day_within_tag() {
    let records = vec![
        rec("x1", 1, "t", "2024-01-01 08:00:00 UTC"),
        rec("x2", 1, "t", "2024-01-01 20:00:00 UTC"),
        rec("x3", 1, "t", "2024-01-02 05:00:00 UTC"),
    ];
    let plan = plan_merge(records, "t", None, Policy::DailyBucket).unwrap();
    assert_eq!(ids(&plan.keep), vec!["x2", "x3"]);
    assert_eq!(ids(&plan.discard), vec!["x1"]);
}
