use moose_core::schema::{fingerprint, normalize, same_columns, Column};

fn col(name: &str, t: &str) -> Column {
    Column { name: name.to_string(), data_type: t.to_string() }
}

fn pairs(cols: &[Column]) -> Vec<(String, String)> {
    cols.iter().map(|c| (c.name.clone(), c.data_type.clone())).collect()
}

#[test]
fn normalize_sorts_by_name_then_type() {
    let cols = vec![col("ts", "DateTime"), col("id", "String"), col("id", "Int64"), col("a", "Float")];
    let n = normalize(&cols);
    assert_eq!(
        pairs(&n),
        vec![
            ("a".to_string(), "Float".to_string()),
            ("id".to_string(), "Int64".to_string()),
            ("id".to_string(), "String".to_string()),
            ("ts".to_string(), "DateTime".to_string()),
        ]
    );
}

#[test]
fn column_order_does_not_change_the_normal_form() {
    let a = normalize(&vec![col("id", "String"), col("ts", "DateTime")]);
    let b = normalize(&vec![col("ts", "DateTime"), col("id", "String")]);
    assert!(same_columns(&a, &b));
}

#[test]
fn added_column_changes_the_normal_form() {
    let a = normalize(&vec![col("id", "String"), col("ts", "DateTime")]);
    let b = normalize(&vec![col("id", "String"), col("ts", "DateTime"), col("session", "String")]);
    assert!(!same_columns(&a, &b));
    let c = normalize(&vec![col("id", "Int64"), col("ts", "DateTime")]);
    assert!(!same_columns(&a, &c));
}

#[test]
fn normalize_keeps_duplicates_and_empty() {
    assert!(normalize(&Vec::new()).is_empty());
    let n = normalize(&vec![col("x", "A"), col("x", "A")]);
    assert_eq!(n.len(), 2);
}

#[test]
fn fingerprint_of_empty_schema_is_the_offset() {
    assert_eq!(fingerprint(&Vec::new()), 0xcbf29ce484222325);
}

#[test]
fn fingerprint_does_not_depend_on_column_order_after_normalizing() {
    let a = normalize(&vec![col("id", "String"), col("ts", "DateTime")]);
    let b = normalize(&vec![col("ts", "DateTime"), col("id", "String")]);
    assert_eq!(fingerprint(&a), fingerprint(&b));
    let c = normalize(&vec![col("id", "String"), col("ts", "DateTime"), col("session", "String")]);
    assert_ne!(fingerprint(&a), fingerprint(&c));
    // Moving a character between name and type changes the fingerprint.
    assert_ne!(fingerprint(&vec![col("ab", "c")]), fingerprint(&vec![col("a", "bc")]));
}

#[test]
fn fingerprint_exact_value() {
    assert_eq!(fingerprint(&vec![col("id", "String")]), 5628085844913487275);
}
