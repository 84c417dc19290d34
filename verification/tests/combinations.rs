use biscotti::matrix::{get_combinations, EnvVar, InputMatrix};

fn strings(items: &[&str]) -> Vec<String> {
    items.iter().map(|s| s.to_string()).collect()
}

fn var(name: &str, value: &str) -> EnvVar {
    EnvVar { name: name.to_string(), value: value.to_string() }
}

fn os_arch() -> InputMatrix {
    let mut matrix = InputMatrix::new();
    matrix.insert("OS".to_string(), strings(&["linux", "mac"]));
    matrix.insert("ARCH".to_string(), strings(&["x64", "arm"]));
    matrix
}

#[test]
fn new_matrix_has_no_rows() {
    let matrix = InputMatrix::new();
    assert!(matrix.rows().is_empty());
}

#[test]
fn insert_appends_new_names_in_order() {
    let matrix = os_arch();
    let expected: Vec<(String, Vec<String>)> = vec![
        ("OS".to_string(), strings(&["linux", "mac"])),
        ("ARCH".to_string(), strings(&["x64", "arm"])),
    ];
    assert_eq!(matrix.rows(), &expected);
}

#[test]
fn insert_replaces_values_in_place() {
    let mut matrix = os_arch();
    matrix.insert("OS".to_string(), strings(&["bsd"]));
    let expected: Vec<(String, Vec<String>)> = vec![
        ("OS".to_string(), strings(&["bsd"])),
        ("ARCH".to_string(), strings(&["x64", "arm"])),
    ];
    assert_eq!(matrix.rows(), &expected);
}

#[test]
fn from_rows_keeps_distinct_rows() {
    let rows: Vec<(String, Vec<String>)> = vec![
        ("B".to_string(), strings(&["1"])),
        ("A".to_string(), strings(&["2", "3"])),
    ];
    let matrix = InputMatrix::from_rows(rows.clone());
    assert_eq!(matrix.rows(), &rows);
}

#[test]
fn from_rows_lets_the_later_row_win() {
    let rows: Vec<(String, Vec<String>)> = vec![
        ("A".to_string(), strings(&["1"])),
        ("B".to_string(), strings(&["2"])),
        ("A".to_string(), strings(&["3", "4"])),
    ];
    let matrix = InputMatrix::from_rows(rows);
    let expected: Vec<(String, Vec<String>)> = vec![
        ("A".to_string(), strings(&["3", "4"])),
        ("B".to_string(), strings(&["2"])),
    ];
    assert_eq!(matrix.rows(), &expected);
}

#[test]
fn two_by_two_in_lexicographic_order() {
    let combinations = get_combinations(os_arch());
    let expected: Vec<Vec<EnvVar>> = vec![
        vec![var("OS", "linux"), var("ARCH", "x64")],
        vec![var("OS", "linux"), var("ARCH", "arm")],
        vec![var("OS", "mac"), var("ARCH", "x64")],
        vec![var("OS", "mac"), var("ARCH", "arm")],
    ];
    assert_eq!(combinations, expected);
}

#[test]
fn last_variable_varies_fastest() {
    let mut matrix = InputMatrix::new();
    matrix.insert("A".to_string(), strings(&["0", "1"]));
    matrix.insert("B".to_string(), strings(&["0", "1", "2"]));
    matrix.insert("C".to_string(), strings(&["0", "1"]));
    let combinations = get_combinations(matrix);
    assert_eq!(combinations.len(), 12);
    let mut k: usize = 0;
    for a in 0..2usize {
        for b in 0..3usize {
            for c in 0..2usize {
                let expected = vec![
                    var("A", &a.to_string()),
                    var("B", &b.to_string()),
                    var("C", &c.to_string()),
                ];
                assert_eq!(combinations[k], expected);
                k += 1;
            }
        }
    }
}

#[test]
fn single_value_gives_one_combination() {
    let mut matrix = InputMatrix::new();
    matrix.insert("X".to_string(), strings(&["a"]));
    let combinations = get_combinations(matrix);
    assert_eq!(combinations, vec![vec![var("X", "a")]]);
}

#[test]
fn count_is_product_of_lengths() {
    let mut matrix = InputMatrix::new();
    matrix.insert("A".to_string(), strings(&["1", "2", "3"]));
    matrix.insert("B".to_string(), strings(&["1", "2"]));
    matrix.insert("C".to_string(), strings(&["1", "2", "3", "4", "5"]));
    assert_eq!(matrix.combination_count(), Some(30));
    let combinations = get_combinations(matrix);
    assert_eq!(combinations.len(), 30);
}

#[test]
fn every_combination_has_one_entry_per_variable() {
    let mut matrix = InputMatrix::new();
    matrix.insert("A".to_string(), strings(&["1", "2", "3"]));
    matrix.insert("B".to_string(), strings(&["x", "y"]));
    let combinations = get_combinations(matrix);
    for combination in &combinations {
        assert_eq!(combination.len(), 2);
        assert_eq!(combination[0].name, "A");
        assert_eq!(combination[1].name, "B");
        assert!(["1", "2", "3"].contains(&combination[0].value.as_str()));
        assert!(["x", "y"].contains(&combination[1].value.as_str()));
    }
}

#[test]
fn every_selection_appears_exactly_once() {
    let mut matrix = InputMatrix::new();
    matrix.insert("A".to_string(), strings(&["1", "2", "3"]));
    matrix.insert("B".to_string(), strings(&["x", "y"]));
    let combinations = get_combinations(matrix);
    for a in ["1", "2", "3"] {
        for b in ["x", "y"] {
            let wanted = vec![var("A", a), var("B", b)];
            let found: usize = combinations.iter().filter(|c| **c == wanted).count();
            assert_eq!(found, 1);
        }
    }
}

#[test]
fn empty_value_list_gives_no_combination() {
    let mut matrix = InputMatrix::new();
    matrix.insert("A".to_string(), strings(&["1", "2"]));
    matrix.insert("B".to_string(), strings(&[]));
    matrix.insert("C".to_string(), strings(&["3"]));
    assert_eq!(matrix.combination_count(), Some(0));
    let combinations = get_combinations(matrix);
    assert!(combinations.is_empty());
}

#[test]
fn only_variable_without_values_gives_no_combination() {
    let mut matrix = InputMatrix::new();
    matrix.insert("A".to_string(), strings(&[]));
    let combinations = get_combinations(matrix);
    assert!(combinations.is_empty());
}

#[test]
fn no_variables_give_one_empty_combination() {
    let matrix = InputMatrix::new();
    assert_eq!(matrix.combination_count(), Some(1));
    let combinations = get_combinations(matrix);
    assert_eq!(combinations.len(), 1);
    assert!(combinations[0].is_empty());
}

#[test]
fn duplicate_values_give_duplicate_combinations() {
    let mut matrix = InputMatrix::new();
    matrix.insert("A".to_string(), strings(&["1", "1"]));
    matrix.insert("B".to_string(), strings(&["x"]));
    let combinations = get_combinations(matrix);
    let expected: Vec<Vec<EnvVar>> = vec![
        vec![var("A", "1"), var("B", "x")],
        vec![var("A", "1"), var("B", "x")],
    ];
    assert_eq!(combinations, expected);
}

#[test]
fn count_beyond_usize_is_none() {
    let mut matrix = InputMatrix::new();
    for i in 0..70usize {
        matrix.insert(format!("V{}", i), strings(&["0", "1"]));
    }
    assert_eq!(matrix.combination_count(), None);
}

#[test]
fn count_with_empty_list_is_zero_however_large_the_rest() {
    let mut matrix = InputMatrix::new();
    for i in 0..70usize {
        matrix.insert(format!("V{}", i), strings(&["0", "1"]));
    }
    matrix.insert("EMPTY".to_string(), strings(&[]));
    assert_eq!(matrix.combination_count(), Some(0));
    assert!(get_combinations(matrix).is_empty());
}

#[test]
fn largest_count_that_fits() {
    let mut matrix = InputMatrix::new();
    for i in 0..20usize {
        matrix.insert(format!("V{}", i), strings(&["0", "1"]));
    }
    assert_eq!(matrix.combination_count(), Some(1048576));
}

#[test]
fn env_vars_compare_by_name_and_value() {
    assert_eq!(var("A", "1"), var("A", "1"));
    assert_ne!(var("A", "1"), var("A", "2"));
    assert_ne!(var("A", "1"), var("B", "1"));
}
