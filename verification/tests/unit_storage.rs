use dblite::storage::{read_value, write_value, StorageError};
use dblite::value::Value;

#[test]
fn value_round_trip_integer_and_text() {
    let mut bytes = Vec::new();
    write_value(&mut bytes, &Value::Integer(42));
    write_value(&mut bytes, &Value::Text("Ana".into()));

    let mut cursor = 0;
    assert_eq!(read_value(&bytes, &mut cursor).unwrap(), Value::Integer(42));
    assert_eq!(
        read_value(&bytes, &mut cursor).unwrap(),
        Value::Text("Ana".into())
    );
    assert_eq!(cursor, bytes.len());
}

#[test]
fn value_rejects_invalid_tag() {
    let input = vec![9u8];
    assert_eq!(
        read_value(&input, &mut 0usize).unwrap_err(),
        StorageError::InvalidTag(9)
    );
}

#[test]
fn value_rejects_truncated_integer() {
    let input = vec![0u8, 1, 2, 3];
    assert_eq!(
        read_value(&input, &mut 0usize).unwrap_err(),
        StorageError::UnexpectedEof
    );
}

#[test]
fn value_rejects_invalid_utf8() {
    let input = vec![
        1u8, // tag text
        2, 0, 0, 0, // len
        0xFF, 0xFF,
    ];
    assert_eq!(
        read_value(&input, &mut 0usize).unwrap_err(),
        StorageError::InvalidUtf8
    );
}
