use dblite::value::Value;

#[test]
fn integer_value_can_be_compared() {
    assert_eq!(Value::Integer(42), Value::Integer(42))
}

#[test]
fn text_value_can_be_compared() {
    assert_eq!(
        Value::Text("hello".to_string()),
        Value::Text("hello".to_string())
    )
}

#[test]
fn display_integer_values() {
    assert_eq!(Value::Integer(42).as_display(), "42");
}

#[test]
fn display_text_values() {
    assert_eq!(Value::Text("hello".to_string()).as_display(), "hello");
}
