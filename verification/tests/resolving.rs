use hcriu::errors::StoreError;
use hcriu::record::record_matches_dir;
use hcriu::record::CheckpointMeta;
use hcriu::resolve::find_by_prefix;

fn store_ids() -> Vec<String> {
    vec![
        String::from("abcdef0123456789abcdef0123456789abcdef0123456789abcdef0123456789"),
        String::from("abcdef02aaaaaaaaaaaaaaaaaaaaaaaaaaaaaaaaaaaaaaaaaaaaaaaaaaaaaaaa"),
        String::from("123456cccccccccccccccccccccccccccccccccccccccccccccccccccccccc"),
    ]
}

#[test]
fn ambiguous_prefix_lists_every_match() {
    match find_by_prefix("abcd", &store_ids()) {
        Err(StoreError::Ambiguous(matches)) => {
            assert_eq!(matches.len(), 2);
            assert!(matches[0].starts_with("abcdef01"));
            assert!(matches[1].starts_with("abcdef02"));
        }
        other => panic!("expected an ambiguous prefix, got {:?}", other),
    }
}

#[test]
fn unique_prefix_resolves() {
    let id = find_by_prefix("1234", &store_ids()).unwrap();
    assert!(id.starts_with("123456"));
}

#[test]
fn short_prefix_is_invalid() {
    assert!(matches!(find_by_prefix("xy", &store_ids()), Err(StoreError::InvalidPrefix)));
    assert!(matches!(find_by_prefix("", &store_ids()), Err(StoreError::InvalidPrefix)));
    assert!(matches!(find_by_prefix("abc", &store_ids()), Err(StoreError::InvalidPrefix)));
}

#[test]
fn unmatched_prefix_is_not_found() {
    assert!(matches!(find_by_prefix("ffff", &store_ids()), Err(StoreError::NotFound)));
}

#[test]
fn whole_id_resolves_to_itself() {
    let ids = store_ids();
    let id = find_by_prefix(ids[1].as_str(), &ids).unwrap();
    assert_eq!(id, ids[1]);
}

#[test]
fn record_dir_consistency_check() {
    let rec = CheckpointMeta {
        checkpoint_id: String::from("abc123"),
        pid: 1,
        cmd: String::from("c"),
        tag: String::from("t"),
        dump_time: String::from("d"),
    };
    assert!(record_matches_dir(&rec, "abc123"));
    assert!(!record_matches_dir(&rec, "abc124"));
    assert!(!record_matches_dir(&rec, "abc1234"));
}
