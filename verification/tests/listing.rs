use hcriu::list::handle_list;
use hcriu::record::CheckpointMeta;
use hcriu::Sort;

fn rec(id: &str, pid: i32, dump_time: &str) -> CheckpointMeta {
    CheckpointMeta {
        checkpoint_id: String::from(id),
        pid,
        cmd: String::from("cmd"),
        tag: String::from("t"),
        dump_time: String::from(dump_time),
    }
}

fn ids(v: &[CheckpointMeta]) -> Vec<String> {
    v.iter().map(|r| r.checkpoint_id.clone()).collect()
}

#[test]
fn list_by_time_is_nondecreasing_regardless_of_input_order() {
    let shuffles: [[&str; 3]; 3] = [
        ["2024-03-01T00:00Z", "2024-01-01T00:00Z", "2024-02-01T00:00Z"],
        ["2024-01-01T00:00Z", "2024-03-01T00:00Z", "2024-02-01T00:00Z"],
        ["2024-02-01T00:00Z", "2024-01-01T00:00Z", "2024-03-01T00:00Z"],
    ];
    for times in shuffles {
        let records: Vec<CheckpointMeta> =
            times.iter().enumerate().map(|(i, t)| rec(&format!("r{}", i), 1, t)).collect();
        let sorted = handle_list(records, Sort::Time);
        for w in sorted.windows(2) {
            assert!(w[0].dump_time <= w[1].dump_time);
        }
        assert_eq!(sorted.len(), 3);
    }
}

#[test]
fn list_by_pid_sorts_numerically_ascending() {
    let records = vec![
        rec("a", 300, "2024-01-01T00:00Z"),
        rec("b", -5, "2024-01-02T00:00Z"),
        rec("c", 42, "2024-01-03T00:00Z"),
    ];
    let sorted = handle_list(records, Sort::Pid);
    assert_eq!(ids(&sorted), vec!["b", "c", "a"]);
}

#[test]
fn list_is_stable_for_equal_keys() {
    let records = vec![
        rec("first", 9, "2024-01-01T00:00Z"),
        rec("second", 9, "2024-01-01T00:00Z"),
        rec("third", 9, "2024-01-01T00:00Z"),
    ];
    let by_time = handle_list(records.clone(), Sort::Time);
    assert_eq!(ids(&by_time), vec!["first", "second", "third"]);
    let by_pid = handle_list(records, Sort::Pid);
    assert_eq!(ids(&by_pid), vec!["first", "second", "third"]);
}

#[test]
fn list_of_empty_store_is_empty() {
    assert!(handle_list(Vec::new(), Sort::Time).is_empty());
}
