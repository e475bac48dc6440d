use jsonl_tools::dataset::JsonlData;
use jsonl_tools::json::JsonValue;
use jsonl_tools::source::{DataError, HttpJsonlReader, JsonlReader, MemoryJsonlReader};
use jsonl_tools::{parse_cli_arguments, process_memory_data, process_url, process_file, DataSource};

fn lines(v: &[&str]) -> Vec<String> {
    v.iter().map(|s| s.to_string()).collect()
}

fn field<'a>(v: &'a JsonValue, name: &str) -> Option<&'a JsonValue> {
    match v {
        JsonValue::Object(fields) => {
            for (k, val) in fields {
                if k == name {
                    return Some(val);
                }
            }
            None
        }
        _ => None,
    }
}

#[test]
fn test_memory_reader() {
    let json_lines = lines(&[
        r#"{"name": "Alice", "age": 30, "city": "New York"}"#,
        r#"{"name": "Bob", "age": 25, "occupation": "Engineer"}"#,
        r#"{"name": "Charlie", "age": 35, "city": "San Francisco", "occupation": "Designer"}"#,
    ]);

    let reports = process_memory_data("test_data".to_string(), json_lines).unwrap();
    assert_eq!(reports.len(), 3);
}

#[test]
fn test_record_replacement() {
    let json_lines = lines(&[r#"{"name": "Alice", "age": 30}"#, r#"{"name": "Bob", "age": 25}"#]);

    let reader = MemoryJsonlReader::from_strings("test".to_string(), &json_lines).unwrap();
    let mut data = JsonlData::new(reader).unwrap();

    let new_record = JsonValue::Object(vec![
        ("name".to_string(), JsonValue::Str("Alice Updated".to_string())),
        ("age".to_string(), JsonValue::Number("31".to_string())),
        ("city".to_string(), JsonValue::Str("Boston".to_string())),
    ]);
    data.replace_record(0, new_record).unwrap();

    if let Some(record) = data.get(0) {
        assert_eq!(field(record, "name"), Some(&JsonValue::Str("Alice Updated".to_string())));
        assert_eq!(field(record, "age"), Some(&JsonValue::Number("31".to_string())));
        assert_eq!(field(record, "city"), Some(&JsonValue::Str("Boston".to_string())));
    } else {
        panic!("Record 0 should exist");
    }
}

#[test]
fn test_different_backends_same_interface() {
    let json_lines = lines(&[r#"{"id": 1, "value": "test1"}"#, r#"{"id": 2, "value": "test2"}"#]);

    let memory_reader =
        MemoryJsonlReader::from_strings("memory_test".to_string(), &json_lines).unwrap();
    let memory_data = JsonlData::new(memory_reader).unwrap();

    assert_eq!(memory_data.len(), 2);
    assert!(!memory_data.is_empty());
    assert_eq!(memory_data.filename(), "memory_test");

    let found = memory_data.show_keys_found_report();
    let freqs = memory_data.show_keys_frequencies_report();
    assert!(found.contains("memory_test"));
    assert!(freqs.contains("id"));
}

#[test]
fn test_http_reader_load_unsupported() {
    let reader = HttpJsonlReader::new("http://somewhere.example/data.jsonl".to_string());
    match JsonlData::new(reader) {
        Ok(_) => panic!("network loading must fail explicitly"),
        Err(e) => assert!(matches!(e, DataError::Unsupported(_))),
    }
}

#[test]
fn test_process_url_always_fails() {
    let r = process_url("http://somewhere.example/data.jsonl".to_string());
    assert!(matches!(r, Err(DataError::Unsupported(_))));
}

#[test]
fn test_replace_record_invalid_index_leaves_everything() {
    let json_lines = lines(&[r#"{"a": 1}"#, r#"{"a": 1, "b": 2}"#]);
    let reader = MemoryJsonlReader::from_strings("t".to_string(), &json_lines).unwrap();
    let mut data = JsonlData::new(reader).unwrap();

    let len_before = data.len();
    let freqs_before = data.key_freqs().clone();
    let keys_before = data.keys_seen().clone();

    let r = data.replace_record(7, JsonValue::Null);
    assert_eq!(r, Err(DataError::IndexOutOfRange(7)));
    assert_eq!(data.len(), len_before);
    assert_eq!(data.key_freqs(), &freqs_before);
    assert_eq!(data.keys_seen(), &keys_before);
}

#[test]
fn test_replace_record_refreshes_frequency_table() {
    let json_lines = lines(&[r#"{"a": 1}"#, r#"{"a": 1, "b": 2}"#]);
    let reader = MemoryJsonlReader::from_strings("t".to_string(), &json_lines).unwrap();
    let mut data = JsonlData::new(reader).unwrap();

    // "b" currently occurs once; record 1 is its sole holder.
    assert_eq!(
        data.key_freqs(),
        &vec![("a".to_string(), 2usize), ("b".to_string(), 1usize)]
    );

    let new_record = JsonValue::Object(vec![("c".to_string(), JsonValue::Bool(true))]);
    data.replace_record(1, new_record).unwrap();

    // "b" left the dataset with its sole holder; "c" entered once.
    assert_eq!(
        data.key_freqs(),
        &vec![("a".to_string(), 1usize), ("c".to_string(), 1usize)]
    );
}

#[test]
fn test_read_accessors_idempotent() {
    let json_lines = lines(&[r#"{"a": 1}"#, r#"{"b": 2}"#]);
    let reader = MemoryJsonlReader::from_strings("t".to_string(), &json_lines).unwrap();
    let data = JsonlData::new(reader).unwrap();

    assert_eq!(data.len(), data.len());
    assert_eq!(data.filename(), data.filename());
    assert_eq!(data.keys_seen(), data.keys_seen());
    assert_eq!(data.key_freqs(), data.key_freqs());
    assert_eq!(data.rows_with_missing_keys(), data.rows_with_missing_keys());
    assert_eq!(data.show_keys_found_report(), data.show_keys_found_report());
    assert_eq!(data.show_keys_frequencies_report(), data.show_keys_frequencies_report());
    assert_eq!(
        data.show_top_key_combinations_report(3),
        data.show_top_key_combinations_report(3)
    );
    assert_eq!(data.get_top_key_combinations(2), data.get_top_key_combinations(2));
    assert_eq!(data.show_record(0), data.show_record(0));
}

#[test]
fn test_empty_dataset() {
    let reader = MemoryJsonlReader::new("empty".to_string(), Vec::new());
    let data = JsonlData::new(reader).unwrap();
    assert_eq!(data.len(), 0);
    assert!(data.is_empty());
    assert!(data.keys_seen().is_empty());
    assert!(data.key_freqs().is_empty());
    assert!(data.rows_with_missing_keys().is_empty());
    assert_eq!(data.get_top_key_combinations(5), Vec::new());
    assert_eq!(data.show_record(0), None);
}

#[test]
fn test_push_and_get_on_reader() {
    let mut reader = MemoryJsonlReader::new("m".to_string(), Vec::new());
    assert!(reader.is_empty());
    reader.push(JsonValue::Bool(true)).unwrap();
    assert_eq!(reader.len(), 1);
    assert_eq!(reader.get(0), Some(&JsonValue::Bool(true)));
    assert_eq!(reader.get(1), None);
    assert_eq!(reader.source_name(), "m");
}

#[test]
fn test_parse_cli_arguments_selects_source() {
    let file = parse_cli_arguments(lines(&["prog", "--filename=data.jsonl"]));
    assert_eq!(file, Some(DataSource::File("data.jsonl".to_string())));

    let url = parse_cli_arguments(lines(&["prog", "--url=http://x.example/d"]));
    assert_eq!(url, Some(DataSource::Url("http://x.example/d".to_string())));

    let first_wins = parse_cli_arguments(lines(&["--url=u", "--filename=f"]));
    assert_eq!(first_wins, Some(DataSource::Url("u".to_string())));

    let none = parse_cli_arguments(lines(&["prog", "--other=x"]));
    assert_eq!(none, None);
}

#[test]
fn test_process_file_skips_blank_lines() {
    let reports = process_file(
        "data.jsonl".to_string(),
        lines(&[r#"{"a": 1}"#, "", "   ", r#"{"a": 2}"#]),
    )
    .unwrap();
    assert!(reports[0].contains("Found 1 unique JSON keys in file data.jsonl"));
}

#[test]
fn test_formatted_counts_use_thousands_separators() {
    let mut many: Vec<String> = Vec::new();
    for _ in 0..1234 {
        many.push(r#"{"k": 0}"#.to_string());
    }
    let reader = MemoryJsonlReader::from_strings("big".to_string(), &many).unwrap();
    let data = JsonlData::new(reader).unwrap();
    let report = data.show_keys_frequencies_report();
    assert!(report.contains("1,234"));
}
