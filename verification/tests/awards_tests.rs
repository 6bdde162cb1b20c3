use rust_grid_calc::awards::{calculate_centurion_progress, calculate_tribune_progress,
    count_unique_prefixes, count_unique_states, extract_base_skcc, extract_prefix};

#[test]
fn test_extract_base_skcc() {
    assert_eq!(extract_base_skcc("14947T"), Some("14947".to_string()));
    assert_eq!(extract_base_skcc("14947"), Some("14947".to_string()));
    assert_eq!(extract_base_skcc("123C"), Some("123".to_string()));
    assert_eq!(extract_base_skcc("123S"), Some("123".to_string()));
    assert_eq!(extract_base_skcc("456x2"), Some("456".to_string()));
    assert_eq!(extract_base_skcc("789Cx5"), Some("789".to_string()));
}

#[test]
fn extract_base_skcc_rejects_non_numbers() {
    assert_eq!(extract_base_skcc(""), None);
    assert_eq!(extract_base_skcc("   "), None);
    assert_eq!(extract_base_skcc("ABC"), None);
    assert_eq!(extract_base_skcc("C"), None);
}

#[test]
fn test_extract_prefix() {
    assert_eq!(extract_prefix("W4GNS"), Some("W4".to_string()));
    assert_eq!(extract_prefix("VE3SVQ"), Some("VE".to_string()));
    assert_eq!(extract_prefix("K1SP"), Some("K1".to_string()));
    assert_eq!(extract_prefix("G4AFU"), Some("G4".to_string()));
}

#[test]
fn extract_prefix_without_digit_is_none() {
    assert_eq!(extract_prefix("NOCALL"), None);
    assert_eq!(extract_prefix(""), None);
}

fn contact(
    call: &str,
    skcc: &str,
    mode: &str,
    key: &str,
    date: &str,
    band: &str,
) -> (String, String, String, String, String, String) {
    (call.to_string(), skcc.to_string(), mode.to_string(), key.to_string(), date.to_string(),
        band.to_string())
}

#[test]
fn centurion_counts_distinct_members_once() {
    let contacts = vec![
        contact("W4GNS", "14947T", "CW", "STRAIGHT", "20240101", "40M"),
        contact("W4GNS", "14947", "CW", "BUG", "20240102", "20M"),
        contact("K1SP", "123C", "CW", "SIDESWIPER", "20240103", "40M"),
        contact("G4AFU", "999", "SSB", "STRAIGHT", "20240104", "40M"),
        contact("VE3SVQ", "888", "CW", "PADDLE", "20240105", "40M"),
        contact("N0CALL", "", "CW", "STRAIGHT", "20240106", "40M"),
    ];
    let (count, details) = calculate_centurion_progress(contacts);
    assert_eq!(count, 2);
    assert_eq!(details.len(), 2);
    // first qualifying contact per member, in input order
    assert_eq!(details[0],
        ("14947".to_string(), "W4GNS".to_string(), "20240101".to_string(), "40M".to_string()));
    assert_eq!(details[1],
        ("123".to_string(), "K1SP".to_string(), "20240103".to_string(), "40M".to_string()));
}

#[test]
fn tribune_counts_only_suffixed_members() {
    let contacts = vec![
        contact("W4GNS", "14947T", "CW", "STRAIGHT", "20240101", "40M"),
        contact("K1SP", "123C", "CW", "STRAIGHT", "20240102", "40M"),
        contact("G4AFU", "55S", "CW", "BUG", "20240103", "20M"),
    ];
    let (count, details) = calculate_tribune_progress(contacts);
    assert_eq!(count, 2);
    assert_eq!(details[0].0, "14947");
    assert_eq!(details[1].0, "55");
}

#[test]
fn count_unique_states_skips_empty_and_duplicates() {
    let states = vec![
        "TN".to_string(),
        "KY".to_string(),
        "".to_string(),
        "TN".to_string(),
    ];
    assert_eq!(count_unique_states(states), 2);
}

#[test]
fn count_unique_prefixes_merges_same_prefix() {
    let calls = vec![
        "W4GNS".to_string(),
        "W4ABC".to_string(),
        "K1SP".to_string(),
        "NOCALL".to_string(),
    ];
    assert_eq!(count_unique_prefixes(calls), 2);
}
