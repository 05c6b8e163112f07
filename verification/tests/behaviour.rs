use dblite::database::{CreateTableError, Database};
use dblite::executor::{execute, ExecutionError, ExecutionResult};
use dblite::lexer::{lex, try_lex, LexError, Token};
use dblite::parser::{parse, Cursor, ParseError};
use dblite::statement::{ColumnDefinition, ColumnType, Projection, Statement};
use dblite::storage::{
    deserialize_database, read_value, serialize_database, write_value, StorageError,
};
use dblite::table::{Column, Row, Table};
use dblite::value::Value;

fn run(database: &mut Database, sql: &str) -> Result<ExecutionResult, ExecutionError> {
    execute(database, parse(sql).unwrap())
}

fn rows_of(result: Result<ExecutionResult, ExecutionError>) -> Vec<Vec<Value>> {
    match result.unwrap() {
        ExecutionResult::Rows(rows) => rows.into_iter().map(|row| row.values).collect(),
        other => panic!("expected rows, got {other:?}"),
    }
}

#[test]
fn integers_display_in_decimal_with_sign() {
    assert_eq!(Value::Integer(-42).as_display(), "-42");
    assert_eq!(Value::Integer(0).as_display(), "0");
    assert_eq!(Value::Integer(i64::MIN).as_display(), "-9223372036854775808");
    assert_eq!(Value::Integer(i64::MAX).as_display(), "9223372036854775807");
}

#[test]
fn keywords_ignore_case_and_identifiers_keep_it() {
    assert_eq!(
        lex("select * From Users_2;").unwrap(),
        vec![
            Token::Select,
            Token::Star,
            Token::From,
            Token::Identifier("Users_2".into()),
            Token::Semicolon
        ]
    );
}

#[test]
fn lex_positions_are_byte_offsets() {
    assert_eq!(
        lex("'é' @").unwrap_err(),
        LexError::Unexpected {
            position: 5,
            character: '@'
        }
    );
    assert_eq!(
        lex("\u{3000}'x").unwrap_err(),
        LexError::UnterminatedString { position: 3 }
    );
    assert_eq!(
        lex("é").unwrap_err(),
        LexError::Unexpected {
            position: 0,
            character: 'é'
        }
    );
}

#[test]
fn lex_reads_integers_and_texts() {
    assert_eq!(
        lex("007 9223372036854775807 'a b'").unwrap(),
        vec![
            Token::Integer(7),
            Token::Integer(i64::MAX),
            Token::String("a b".into())
        ]
    );
    assert_eq!(lex("  ").unwrap(), vec![]);
}

#[test]
fn oversized_integer_literals_are_flagged() {
    assert!(try_lex("9223372036854775808").is_none());
    assert!(try_lex("@ 9223372036854775808").unwrap().is_err());
    assert_eq!(try_lex("1").unwrap().unwrap(), vec![Token::Integer(1)]);
}

#[test]
fn parse_builds_statements() {
    assert_eq!(
        parse("create table t (a int, b text);").unwrap(),
        Statement::CreateTable {
            table_name: "t".into(),
            columns: vec![
                ColumnDefinition {
                    name: "a".into(),
                    column_type: ColumnType::Integer
                },
                ColumnDefinition {
                    name: "b".into(),
                    column_type: ColumnType::Text
                },
            ]
        }
    );
    assert_eq!(
        parse("SELECT * FROM t;").unwrap(),
        Statement::Select {
            projection: Projection::All,
            table_name: "t".into()
        }
    );
    assert_eq!(
        parse("INSERT INTO t VALUES (-1, 'x');").unwrap_err(),
        ParseError::End("valid SQL")
    );
    assert_eq!(
        parse("INSERT INTO t VALUES (1, 'x');").unwrap(),
        Statement::Insert {
            table_name: "t".into(),
            values: vec![Value::Integer(1), Value::Text("x".into())]
        }
    );
}

#[test]
fn parse_reports_errors() {
    assert_eq!(parse("").unwrap_err(), ParseError::End("statement"));
    assert_eq!(
        parse("users").unwrap_err(),
        ParseError::Token {
            expected: "statement",
            found: Token::Identifier("users".into())
        }
    );
    assert_eq!(
        parse("SELECT * FROM t; t").unwrap_err(),
        ParseError::Trailing(Token::Identifier("t".into()))
    );
    assert_eq!(
        parse("INSERT 1").unwrap_err(),
        ParseError::Token {
            expected: "INTO",
            found: Token::Integer(1)
        }
    );
    assert_eq!(
        parse("INSERT t").unwrap(),
        Statement::Insert {
            table_name: "t".into(),
            values: vec![]
        }
    );
    assert_eq!(
        parse("INSERT INTO t VALUES (1,").unwrap_err(),
        ParseError::End("literal")
    );
    assert_eq!(
        parse("INSERT INTO t VALUES (1;").unwrap_err(),
        ParseError::Token {
            expected: "')'",
            found: Token::Semicolon
        }
    );
    assert_eq!(
        parse("CREATE TABLE t (a FLOAT);").unwrap_err(),
        ParseError::Token {
            expected: "INT or TEXT",
            found: Token::Identifier("FLOAT".into())
        }
    );
    assert_eq!(
        parse("CREATE TABLE t (a").unwrap_err(),
        ParseError::End("column type")
    );
    assert_eq!(
        parse("CREATE TABLE t (a INT) x").unwrap_err(),
        ParseError::Token {
            expected: ";",
            found: Token::Identifier("x".into())
        }
    );
    assert_eq!(
        parse("SELECT a, FROM t;").unwrap_err(),
        ParseError::Token {
            expected: "identifier",
            found: Token::From
        }
    );
    assert_eq!(parse("SELECT a FROM t").unwrap_err(), ParseError::End("';'"));
}

#[test]
fn cursor_walks_tokens() {
    let mut cursor = Cursor::new(vec![Token::Identifier("a".into()), Token::Comma]);
    assert_eq!(cursor.peek(), Some(&Token::Identifier("a".into())));
    assert_eq!(cursor.identifier().unwrap(), "a");
    assert_eq!(
        cursor.expect("';'", Token::Semicolon).unwrap_err(),
        ParseError::Token {
            expected: "';'",
            found: Token::Comma
        }
    );
    assert_eq!(cursor.peek(), None);
    assert_eq!(cursor.next(), None);
    assert_eq!(cursor.identifier().unwrap_err(), ParseError::End("identifier"));
}

#[test]
fn created_table_starts_empty() {
    let mut database = Database::new();
    assert_eq!(
        run(&mut database, "CREATE TABLE t (a INT);").unwrap(),
        ExecutionResult::TableCreated
    );
    assert!(rows_of(run(&mut database, "SELECT * FROM t;")).is_empty());
}

#[test]
fn inserted_rows_come_back_in_order() {
    let mut database = Database::new();
    run(&mut database, "CREATE TABLE t (a INT, b TEXT);").unwrap();
    run(&mut database, "INSERT INTO t VALUES (1, 'x');").unwrap();
    run(&mut database, "INSERT INTO t VALUES (2, 'y');").unwrap();
    assert_eq!(
        rows_of(run(&mut database, "SELECT * FROM t;")),
        vec![
            vec![Value::Integer(1), Value::Text("x".into())],
            vec![Value::Integer(2), Value::Text("y".into())]
        ]
    );
    assert_eq!(
        rows_of(run(&mut database, "SELECT b, b, a FROM t;")),
        vec![
            vec![
                Value::Text("x".into()),
                Value::Text("x".into()),
                Value::Integer(1)
            ],
            vec![
                Value::Text("y".into()),
                Value::Text("y".into()),
                Value::Integer(2)
            ]
        ]
    );
}

#[test]
fn refused_statements_change_nothing() {
    let mut database = Database::new();
    run(&mut database, "CREATE TABLE t (a INT);").unwrap();
    run(&mut database, "INSERT INTO t VALUES (1);").unwrap();
    assert_eq!(
        run(&mut database, "CREATE TABLE t (b TEXT);").unwrap_err(),
        ExecutionError::TableAlreadyExists("t".into())
    );
    assert_eq!(
        run(&mut database, "INSERT INTO t VALUES (1, 2);").unwrap_err(),
        ExecutionError::WrongValueCount {
            expected: 1,
            actual: 2
        }
    );
    assert_eq!(
        run(&mut database, "INSERT INTO u VALUES (1);").unwrap_err(),
        ExecutionError::TableNotFound("u".into())
    );
    assert_eq!(
        run(&mut database, "SELECT a, x, y FROM t;").unwrap_err(),
        ExecutionError::ColumnNotFound("x".into())
    );
    assert_eq!(
        run(&mut database, "SELECT * FROM u;").unwrap_err(),
        ExecutionError::TableNotFound("u".into())
    );
    assert_eq!(database.tables().len(), 1);
    assert_eq!(database.table("t").unwrap().row_count(), 1);
    assert_eq!(database.table("t").unwrap().columns()[0].name, "a");
}

#[test]
fn table_lookup_by_name() {
    let mut database = Database::new();
    assert!(database.table("t").is_none());
    assert!(database.table_mut("t").is_none());
    database
        .create_table(Table::new("t", vec![Column::new("a")]))
        .unwrap();
    database
        .table_mut("t")
        .unwrap()
        .insert(Row::new(vec![Value::Integer(5)]))
        .unwrap();
    assert_eq!(database.table("t").unwrap().name(), "t");
    assert_eq!(database.table("t").unwrap().rows()[0].values(), &[Value::Integer(5)]);
    assert_eq!(
        database
            .create_table(Table::new("t", vec![]))
            .unwrap_err(),
        CreateTableError::AlreadyExists("t".into())
    );
}

#[test]
fn storage_round_trip_keeps_every_table() {
    let mut database = Database::new();
    run(&mut database, "CREATE TABLE a (x INT, y TEXT);").unwrap();
    run(&mut database, "CREATE TABLE b (z TEXT);").unwrap();
    run(&mut database, "CREATE TABLE empty (w INT);").unwrap();
    database
        .table_mut("a")
        .unwrap()
        .insert(Row::new(vec![Value::Integer(i64::MIN), Value::Text("ção".into())]))
        .unwrap();
    run(&mut database, "INSERT INTO a VALUES (9223372036854775807, '');").unwrap();
    run(&mut database, "INSERT INTO b VALUES ('日本');").unwrap();
    let bytes = serialize_database(&database).unwrap();
    let mut restored = deserialize_database(&bytes).unwrap();
    assert_eq!(restored.tables(), database.tables());
    assert_eq!(
        rows_of(run(&mut restored, "SELECT y FROM a;")),
        vec![vec![Value::Text("ção".into())], vec![Value::Text("".into())]]
    );
    assert_eq!(serialize_database(&restored).unwrap(), bytes);
}

#[test]
fn empty_database_bytes() {
    let bytes = serialize_database(&Database::new()).unwrap();
    assert_eq!(bytes, vec![b'D', b'B', b'L', b'1', 1, 0, 0, 0, 0, 0]);
    assert!(deserialize_database(&bytes).unwrap().tables().is_empty());
}

#[test]
fn value_bytes_are_little_endian() {
    let mut bytes = Vec::new();
    write_value(&mut bytes, &Value::Integer(-2));
    assert_eq!(bytes, vec![0, 0xFE, 0xFF, 0xFF, 0xFF, 0xFF, 0xFF, 0xFF, 0xFF]);
    let mut bytes = Vec::new();
    write_value(&mut bytes, &Value::Text("é".into()));
    assert_eq!(bytes, vec![1, 2, 0, 0, 0, 0xC3, 0xA9]);
    let mut cursor = 0;
    assert_eq!(read_value(&bytes, &mut cursor).unwrap(), Value::Text("é".into()));
    assert_eq!(cursor, 7);
}

#[test]
fn value_reading_errors() {
    let mut cursor = usize::MAX;
    assert_eq!(
        read_value(&[0u8], &mut cursor).unwrap_err(),
        StorageError::LengthOverflow
    );
    assert_eq!(cursor, usize::MAX);
    let mut cursor = 0;
    assert_eq!(
        read_value(&[1u8, 5, 0, 0, 0, b'a'], &mut cursor).unwrap_err(),
        StorageError::UnexpectedEof
    );
    assert_eq!(cursor, 5);
    assert_eq!(
        read_value(&[], &mut 0usize).unwrap_err(),
        StorageError::UnexpectedEof
    );
}

#[test]
fn database_reading_errors() {
    assert_eq!(
        deserialize_database(b"DBL2\x01\x00\x00\x00\x00\x00").unwrap_err(),
        StorageError::Io("invalid magic".into())
    );
    assert_eq!(
        deserialize_database(b"DB").unwrap_err(),
        StorageError::UnexpectedEof
    );
    assert_eq!(
        deserialize_database(b"DBL1\x01\x00\x01\x00\x00\x00").unwrap_err(),
        StorageError::UnexpectedEof
    );

    let mut database = Database::new();
    run(&mut database, "CREATE TABLE users (a INT);").unwrap();
    let mut bytes = serialize_database(&database).unwrap();
    // Claim two tables and repeat the table.
    let table = bytes[10..].to_vec();
    bytes[6] = 2;
    bytes.extend(table);
    assert_eq!(
        deserialize_database(&bytes).unwrap_err(),
        StorageError::Io("AlreadyExists(\"users\")".into())
    );

    run(&mut database, "INSERT INTO users VALUES (7);").unwrap();
    let mut bytes = serialize_database(&database).unwrap();
    // The row's value count sits right after the row count.
    let at = bytes.len() - 9 - 4;
    bytes[at] = 0;
    bytes.truncate(at + 4);
    assert_eq!(
        deserialize_database(&bytes).unwrap_err(),
        StorageError::Io("WrongValueCount { expected: 1, actual: 0 }".into())
    );
}

#[test]
fn texts_debug_quoted_in_messages() {
    let mut database = Database::new();
    run(&mut database, "CREATE TABLE q (a INT);").unwrap();
    let mut bytes = serialize_database(&database).unwrap();
    let table = bytes[10..].to_vec();
    bytes[6] = 2;
    bytes.extend(table);
    // Rename both copies to a name with a quote in it.
    let renamed: Vec<u8> = bytes
        .iter()
        .map(|b| if *b == b'q' { b'"' } else { *b })
        .collect();
    assert_eq!(
        deserialize_database(&renamed).unwrap_err(),
        StorageError::Io("AlreadyExists(\"\\\"\")".into())
    );
}
