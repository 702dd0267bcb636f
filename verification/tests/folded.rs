use inferno::collapse::folded::folded_entries;

#[test]
fn folded_lines_read_back_as_entries() {
    let text = "a;b 3\nc 1 4\n  \nbad line\nx y\nd 3  \r\n";
    let e = folded_entries(text).unwrap();
    assert_eq!(
        e,
        vec![
            ("a;b".to_string(), 3, None),
            ("c".to_string(), 4, Some(3)),
            ("d".to_string(), 3, None),
        ]
    );
}

#[test]
fn folded_differential_lines_give_negative_deltas() {
    assert_eq!(folded_entries("a 5 2").unwrap(), vec![("a".to_string(), 2, Some(-3))]);
    assert_eq!(folded_entries("a  1  2\n").unwrap(), vec![("a ".to_string(), 2, Some(1))]);
}

#[test]
fn folded_delta_that_does_not_fit_is_refused() {
    assert_eq!(
        folded_entries("a 0 18446744073709551615").unwrap(),
        vec![("a".to_string(), u64::MAX, Some(-1))]
    );
    assert!(folded_entries("a 18446744073709551615 9223372036854775807").is_none());
}

#[test]
fn folded_entries_come_sorted_by_stack() {
    let e = folded_entries("b 2\na 1 3\nnot-a-line\n").unwrap();
    assert_eq!(e, vec![("a".to_string(), 3, Some(2)), ("b".to_string(), 2, None)]);
    let e = folded_entries("a 5\na 2\na 2 3\n").unwrap();
    assert_eq!(
        e,
        vec![("a".to_string(), 2, None), ("a".to_string(), 3, Some(1)), ("a".to_string(), 5, None)]
    );
}
