use dblite::greeting;

#[test]
fn test_greeting() {
    assert_eq!(greeting(), "dblite");
}
