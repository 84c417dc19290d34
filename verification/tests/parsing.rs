use biscotti::matrix::{get_combinations, EnvVar};
use biscotti::parse::parse_matrix;

fn sorted_rows(text: &str) -> Vec<(String, Vec<String>)> {
    let matrix = parse_matrix(text).expect("the text is a matrix");
    let mut rows = matrix.rows().clone();
    rows.sort();
    rows
}

fn strings(items: &[&str]) -> Vec<String> {
    items.iter().map(|s| s.to_string()).collect()
}

#[test]
fn parses_object_of_string_arrays() {
    let rows = sorted_rows(r#"{"OS": ["linux","mac"], "ARCH": ["x64","arm"]}"#);
    let expected: Vec<(String, Vec<String>)> = vec![
        ("ARCH".to_string(), strings(&["x64", "arm"])),
        ("OS".to_string(), strings(&["linux", "mac"])),
    ];
    assert_eq!(rows, expected);
}

#[test]
fn parses_empty_object() {
    let matrix = parse_matrix("{}").expect("the text is a matrix");
    assert!(matrix.rows().is_empty());
}

#[test]
fn parses_empty_value_list() {
    let rows = sorted_rows(r#"{"A": []}"#);
    let expected: Vec<(String, Vec<String>)> = vec![("A".to_string(), strings(&[]))];
    assert_eq!(rows, expected);
}

#[test]
fn keeps_value_order_and_duplicates() {
    let rows = sorted_rows(r#"{"A": ["b", "a", "b"]}"#);
    let expected: Vec<(String, Vec<String>)> = vec![("A".to_string(), strings(&["b", "a", "b"]))];
    assert_eq!(rows, expected);
}

#[test]
fn repeated_member_keeps_later_values() {
    let rows = sorted_rows(r#"{"A": ["1"], "B": ["2"], "A": ["3"]}"#);
    let expected: Vec<(String, Vec<String>)> = vec![
        ("A".to_string(), strings(&["3"])),
        ("B".to_string(), strings(&["2"])),
    ];
    assert_eq!(rows, expected);
}

#[test]
fn parsed_names_are_distinct() {
    let matrix = parse_matrix(r#"{"A": ["1"], "B": ["2"], "C": ["3"], "A": ["4"]}"#)
        .expect("the text is a matrix");
    let rows = matrix.rows();
    assert_eq!(rows.len(), 3);
    for i in 0..rows.len() {
        for j in 0..i {
            assert_ne!(rows[i].0, rows[j].0);
        }
    }
}

#[test]
fn rejects_array() {
    assert!(parse_matrix(r#"["a", "b"]"#).is_err());
}

#[test]
fn rejects_non_string_values() {
    assert!(parse_matrix(r#"{"A": [1, 2]}"#).is_err());
}

#[test]
fn rejects_value_that_is_no_array() {
    assert!(parse_matrix(r#"{"A": "a"}"#).is_err());
}

#[test]
fn rejects_broken_text() {
    assert!(parse_matrix(r#"{"A": ["a""#).is_err());
    assert!(parse_matrix("").is_err());
    assert!(parse_matrix("not json").is_err());
}

#[test]
fn rejects_trailing_text() {
    assert!(parse_matrix(r#"{"A": ["a"]} x"#).is_err());
}

#[test]
fn error_message_names_the_place() {
    let error = parse_matrix(r#"{"A": [1]}"#).expect_err("numbers are no strings");
    assert!(error.message.contains("line 1"));
    assert!(error.message.contains("column"));
}

#[test]
fn parsed_matrix_expands() {
    let matrix = parse_matrix(r#"{"X": ["a", "b"]}"#).expect("the text is a matrix");
    let combinations = get_combinations(matrix);
    let expected: Vec<Vec<EnvVar>> = vec![
        vec![EnvVar { name: "X".to_string(), value: "a".to_string() }],
        vec![EnvVar { name: "X".to_string(), value: "b".to_string() }],
    ];
    assert_eq!(combinations, expected);
}
