use hcriu::record::{generate_id, CheckpointMeta};

#[test]
fn id_is_deterministic() {
    let a = generate_id(1234, "sleep 1000", "2024-01-01 10:00:00 UTC");
    let b = generate_id(1234, "sleep 1000", "2024-01-01 10:00:00 UTC");
    assert_eq!(a, b);
}

#[test]
fn id_differs_when_any_input_differs() {
    let base = generate_id(1234, "sleep 1000", "2024-01-01 10:00:00 UTC");
    let other_pid = generate_id(1235, "sleep 1000", "2024-01-01 10:00:00 UTC");
    let other_cmd = generate_id(1234, "sleep 1001", "2024-01-01 10:00:00 UTC");
    let other_time = generate_id(1234, "sleep 1000", "2024-01-01 10:00:01 UTC");
    assert_ne!(base, other_pid);
    assert_ne!(base, other_cmd);
    assert_ne!(base, other_time);
}

#[test]
fn id_is_sha256_of_concatenated_input() {
    // the identity input for (1, "", "") is the single byte "1"
    let id = generate_id(1, "", "");
    assert_eq!(id, "6b86b273ff34fce19d6b804eff5a3f5747ada4eaa22f1d49c01e52ddb7875b4b");
    let id2 = generate_id(42, "ls -la", "2024-01-01 10:00:00 UTC");
    assert_eq!(id2, "98bf93977162ec84d1161cf0c28b49df50270728fcc8b0ddd75f70e4656469e7");
}

#[test]
fn id_is_64_lowercase_hex_digits() {
    let id = generate_id(-7, "a b c", "2024-02-29 23:59:59 UTC");
    assert_eq!(id.len(), 64);
    assert!(id.chars().all(|c| c.is_ascii_hexdigit() && !c.is_ascii_uppercase()));
}

#[test]
fn new_fills_fields_and_defaults_tag() {
    let rec = CheckpointMeta::new(
        77,
        String::from("top"),
        None,
        String::from("2024-01-01 10:00:00 UTC"),
    );
    assert_eq!(rec.pid, 77);
    assert_eq!(rec.cmd, "top");
    assert_eq!(rec.tag, "tmp-77");
    assert_eq!(rec.dump_time, "2024-01-01 10:00:00 UTC");
    assert_eq!(rec.checkpoint_id, generate_id(77, "top", "2024-01-01 10:00:00 UTC"));
}

#[test]
fn new_keeps_given_tag() {
    let rec = CheckpointMeta::new(
        77,
        String::from("top"),
        Some(String::from("nightly")),
        String::from("2024-01-01 10:00:00 UTC"),
    );
    assert_eq!(rec.tag, "nightly");
}
