use dblite::database::{CreateTableError, Database};
use dblite::table::{Column, Table};

#[test]
fn stores_and_rejects_duplicate_tables() {
    let mut database = Database::new();
    database
        .create_table(Table::new("users", vec![Column::new("id")]))
        .unwrap();
    assert!(database.table("users").is_some());
    assert_eq!(
        database
            .create_table(Table::new("users", vec![]))
            .unwrap_err(),
        CreateTableError::AlreadyExists("users".into())
    );
}

#[test]
fn tables_stay_under_the_name_they_were_created_under() {
    let mut database = Database::new();
    database.create_table(Table::new("a", vec![])).unwrap();
    *database.table_mut("a").unwrap() = Table::new("b", vec![]);
    assert_eq!(database.table("a").unwrap().name(), "b");
    assert!(database.table("b").is_none());
    assert_eq!(
        database.create_table(Table::new("a", vec![])).unwrap_err(),
        CreateTableError::AlreadyExists("a".into())
    );
    database.create_table(Table::new("b", vec![])).unwrap();
    assert_eq!(database.tables().len(), 2);
}
