use inferno::collapse::FoldedStacks;

#[test]
fn folded_stacks_len_counts_distinct_stacks() {
    let fs = FoldedStacks::from_entries(vec![
        ("a".to_string(), 1, None),
        ("a".to_string(), 2, None),
        ("b".to_string(), 1, None),
    ]);
    assert_eq!(fs.len(), 2);
    assert!(!fs.is_empty());
    let empty = FoldedStacks::new();
    assert_eq!(empty.len(), 0);
    assert!(empty.is_empty());
    let mut more = FoldedStacks::from_entries(vec![("x".to_string(), 1, None)]);
    more.extend(vec![("y".to_string(), 2, None), ("x".to_string(), 3, Some(2))]);
    assert_eq!(more.len(), 2);
}
