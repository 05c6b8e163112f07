use dblite::table::{Column, InsertError, Row, Table};
use dblite::value::Value;

#[test]
fn constructors_keep_owned_data_in_order() {
    let column = Column::new("name");
    let row = Row::new(vec![Value::Integer(1), Value::Text("Ana".into())]);

    assert_eq!(column.name, "name");
    assert_eq!(row.values()[0], Value::Integer(1));
}

#[test]
fn finds_columns_or_none() {
    let table = Table::new("users", vec![Column::new("id")]);
    assert_eq!(table.column_index("id"), Some(0));
    assert_eq!(table.column_index("name"), None);
}

#[test]
fn inserts_valid_rows_and_preserves_invalid_state() {
    let mut table = Table::new("users", vec![Column::new("id")]);
    table.insert(Row::new(vec![Value::Integer(1)])).unwrap();

    assert_eq!(table.row_count(), 1);
    assert_eq!(
        table.insert(Row::new(vec![])).unwrap_err(),
        InsertError::WrongValueCount {
            expected: 1,
            actual: 0
        }
    );

    assert_eq!(table.row_count(), 1);
}
