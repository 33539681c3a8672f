use volatilum::accounts::RawAccounts;

#[test]
fn empty_container_has_no_entries() {
    let accounts = RawAccounts::new();
    assert_eq!(accounts.len(), 0);
    assert_eq!(accounts.get("Acc1"), None);
    assert!(accounts.keys().is_empty());
}

#[test]
fn round_trip_preserves_every_entry_byte_exactly() {
    let pairs = vec![
        ("Gamma".to_string(), vec![3u8, 3, 3]),
        ("Alpha".to_string(), vec![1u8]),
        ("Beta".to_string(), vec![2u8, 2]),
    ];
    let accounts = RawAccounts::from_pairs(&pairs);
    assert_eq!(accounts.len(), 3);
    assert_eq!(accounts.get("Alpha"), Some(&vec![1u8]));
    assert_eq!(accounts.get("Beta"), Some(&vec![2u8, 2]));
    assert_eq!(accounts.get("Gamma"), Some(&vec![3u8, 3, 3]));
    assert_eq!(accounts.get("Delta"), None);
}

#[test]
fn keys_are_kept_in_canonical_sorted_order() {
    let mut accounts = RawAccounts::new();
    accounts.insert("b".to_string(), vec![2u8]);
    accounts.insert("a".to_string(), vec![1u8]);
    accounts.insert("ab".to_string(), vec![3u8]);
    assert_eq!(accounts.keys(), vec!["a".to_string(), "ab".to_string(), "b".to_string()]);
}

#[test]
fn insertion_order_does_not_change_the_container() {
    let mut first = RawAccounts::new();
    first.insert("Acc1".to_string(), vec![1u8]);
    first.insert("Acc2".to_string(), vec![2u8]);
    first.insert("Acc3".to_string(), vec![3u8]);
    let mut second = RawAccounts::new();
    second.insert("Acc3".to_string(), vec![3u8]);
    second.insert("Acc1".to_string(), vec![1u8]);
    second.insert("Acc2".to_string(), vec![2u8]);
    assert_eq!(first.keys(), second.keys());
    for key in first.keys() {
        assert_eq!(first.get(&key), second.get(&key));
    }
}

#[test]
fn inserting_an_existing_key_replaces_its_payload() {
    let mut accounts = RawAccounts::new();
    accounts.insert("Acc1".to_string(), vec![1u8]);
    accounts.insert("Acc1".to_string(), vec![7u8, 7]);
    assert_eq!(accounts.len(), 1);
    assert_eq!(accounts.get("Acc1"), Some(&vec![7u8, 7]));
}

#[test]
fn a_key_is_never_a_prefix_casualty() {
    let mut accounts = RawAccounts::new();
    accounts.insert("Acc".to_string(), vec![1u8]);
    accounts.insert("Acc1".to_string(), vec![2u8]);
    assert_eq!(accounts.len(), 2);
    assert_eq!(accounts.keys(), vec!["Acc".to_string(), "Acc1".to_string()]);
    assert_eq!(accounts.get("Acc"), Some(&vec![1u8]));
    assert_eq!(accounts.get("Acc1"), Some(&vec![2u8]));
}
