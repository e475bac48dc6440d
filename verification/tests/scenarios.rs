use jsonl_tools::dataset::JsonlData;
use jsonl_tools::source::{DataError, MemoryJsonlReader};

fn dataset(v: &[&str]) -> JsonlData<MemoryJsonlReader> {
    let lines: Vec<String> = v.iter().map(|s| s.to_string()).collect();
    let reader = MemoryJsonlReader::from_strings("scenario".to_string(), &lines).unwrap();
    JsonlData::new(reader).unwrap()
}

#[test]
fn scenario_flat_records() {
    let data = dataset(&[r#"{"a": 1}"#, r#"{"a": 1, "b": 2}"#]);
    assert_eq!(data.keys_seen(), &vec!["a".to_string(), "b".to_string()]);
    assert_eq!(
        data.key_freqs(),
        &vec![("a".to_string(), 2usize), ("b".to_string(), 1usize)]
    );
    assert_eq!(data.rows_with_missing_keys(), &vec![0usize]);
}

#[test]
fn scenario_nested_records() {
    let data = dataset(&[r#"{"a": {"x": 1}}"#, r#"{"a": {"y": 2}}"#]);
    let mut keys = data.keys_seen().clone();
    keys.sort();
    assert_eq!(keys, vec!["a".to_string(), "a.x".to_string(), "a.y".to_string()]);
    assert_eq!(data.rows_with_missing_keys(), &vec![0usize, 1usize]);
    assert_eq!(data.show_record(0), Some(vec!["a.y".to_string()]));
    assert_eq!(data.show_record(1), Some(vec!["a.x".to_string()]));
}

#[test]
fn scenario_array_record() {
    // An array hands its position only on to its descendants: scalar
    // elements end the traversal, so only the field path itself remains.
    let data = dataset(&[r#"{"a": [1, 2]}"#]);
    assert_eq!(data.keys_seen(), &vec!["a".to_string()]);
    assert_eq!(data.key_freqs(), &vec![("a".to_string(), 1usize)]);

    // Nested containers do surface their bracketed element paths.
    let nested = dataset(&[r#"{"a": [{"x": 1}, [2]]}"#]);
    let mut keys = nested.keys_seen().clone();
    keys.sort();
    assert_eq!(keys, vec!["a".to_string(), "a[0].x".to_string()]);
}

#[test]
fn scenario_top_combination() {
    let data = dataset(&[r#"{"a": 1, "b": 2}"#, r#"{"a": 1, "b": 2}"#, r#"{"c": 3}"#]);
    let top = data.get_top_key_combinations(1);
    assert_eq!(top, vec![(vec!["a".to_string(), "b".to_string()], 2usize)]);
}

#[test]
fn scenario_malformed_line_fails_load() {
    let lines: Vec<String> = [r#"{"a": 1}"#, r#"{"a":"#, r#"{"b": 2}"#]
        .iter()
        .map(|s| s.to_string())
        .collect();
    match MemoryJsonlReader::from_strings("bad".to_string(), &lines) {
        Ok(_) => panic!("a malformed line must fail the whole load"),
        Err(e) => assert!(matches!(e, DataError::Parse(_))),
    }
}

#[test]
fn scenario_global_keys_are_union_of_rows() {
    let data = dataset(&[r#"{"a": 1}"#, r#"{"b": {"c": 2}}"#, r#"[true]"#]);
    // Union of the rows' key sets: {a} with {b, b.c} with {} from the array
    // record, whose scalar element adds nothing.
    let mut keys = data.keys_seen().clone();
    keys.sort();
    assert_eq!(keys, vec!["a".to_string(), "b".to_string(), "b.c".to_string()]);
    // Every row misses something here.
    assert_eq!(data.rows_with_missing_keys(), &vec![0usize, 1usize, 2usize]);
}

#[test]
fn scenario_frequency_order_total() {
    // Counts descend; equal counts order lexicographically ascending.
    let data = dataset(&[
        r#"{"b": 1, "a": 1, "zz": 0}"#,
        r#"{"b": 2, "a": 2}"#,
        r#"{"b": 3}"#,
    ]);
    assert_eq!(
        data.key_freqs(),
        &vec![
            ("b".to_string(), 3usize),
            ("a".to_string(), 2usize),
            ("zz".to_string(), 1usize),
        ]
    );
}

#[test]
fn scenario_combination_report_wording() {
    let data = dataset(&[r#"{"a": 1, "b": 2}"#, r#"{"a": 1, "b": 2}"#, r#"{"c": 3}"#]);
    let report = data.show_top_key_combinations_report(2);
    assert!(report.contains("1. (a, b) - 2 occurrences"));
    assert!(report.contains("2. (c) - 1 occurrence\n"));

    let empty = dataset(&[r#"[1]"#]);
    let none = empty.show_top_key_combinations_report(2);
    assert!(none.contains("No JSON key combinations found."));
}

#[test]
fn scenario_report_text_exact() {
    let data = dataset(&[r#"{"a": 1}"#]);
    assert_eq!(
        data.show_keys_found_report(),
        "===============================\nFound 1 unique JSON keys in file scenario\n"
    );
    let expected = format!(
        "===============================\nKey{} {}Count\n{}\n\ta{} {}1\n\n\nRows with missing keys: []\n",
        " ".repeat(17),
        " ".repeat(7),
        "-".repeat(34),
        " ".repeat(19),
        " ".repeat(11),
    );
    assert_eq!(data.show_keys_frequencies_report(), expected);

    let drifted = dataset(&[r#"{"a": 1}"#, r#"{"b": 2}"#]);
    assert!(drifted
        .show_keys_frequencies_report()
        .contains("Rows with missing keys: [0, 1]\n"));
}
