use dblite::command::Command;
use dblite::database::Database;
use dblite::executor::{execute, execute_command, ExecutionResult};
use dblite::lexer::{lex, Token};
use dblite::parser::{command_into_statement, parse, ParseError};
use dblite::storage::{deserialize_database, serialize_database, StorageError};
use dblite::table::Row;
use dblite::value::Value;

#[test]
fn tokens_after_a_statement_are_refused() {
    assert_eq!(
        parse("INSERT INTO t VALUES (1); SELECT").unwrap_err(),
        ParseError::Trailing(Token::Select)
    );
    assert_eq!(
        parse("SELECT * FROM t; x y").unwrap_err(),
        ParseError::Trailing(Token::Identifier("x".into()))
    );
    assert_eq!(
        parse("CREATE TABLE t (a INT); ;").unwrap_err(),
        ParseError::Trailing(Token::Semicolon)
    );
}

#[test]
fn joined_texts_lex_to_joined_tokens() {
    let pairs = [
        ("SELECT a", "FROM t;"),
        ("'it'", "42"),
        ("x", ""),
        ("", "(1, 2)"),
        ("name", "TEXT"),
    ];
    for (a, b) in pairs {
        let mut expected = lex(a).unwrap();
        expected.extend(lex(b).unwrap());
        assert_eq!(lex(&format!("{a} {b}")).unwrap(), expected);
    }
}

#[test]
fn every_cut_image_ends_too_early() {
    let mut database = Database::new();
    execute(&mut database, parse("CREATE TABLE a (x INT, y TEXT);").unwrap()).unwrap();
    execute(&mut database, parse("CREATE TABLE b (z TEXT);").unwrap()).unwrap();
    database
        .table_mut("a")
        .unwrap()
        .insert(Row::new(vec![Value::Integer(-5), Value::Text("ção".into())]))
        .unwrap();
    execute(&mut database, parse("INSERT INTO b VALUES ('t');").unwrap()).unwrap();
    let bytes = serialize_database(&database).unwrap();
    for k in 0..bytes.len() {
        assert!(matches!(
            deserialize_database(&bytes[..k]),
            Err(StorageError::UnexpectedEof)
        ));
    }
    assert!(deserialize_database(&bytes).is_ok());
}

#[test]
fn commands_run_as_the_statements_they_stand_for() {
    let commands = || {
        vec![
            Command::Create {
                table_name: "t".into(),
                columns: vec!["a".into(), "b".into()],
            },
            Command::Insert {
                table_name: "t".into(),
                values: vec![Value::Integer(1), Value::Text("x".into())],
            },
            Command::Insert {
                table_name: "t".into(),
                values: vec![Value::Integer(1)],
            },
            Command::Create {
                table_name: "t".into(),
                columns: vec![],
            },
            Command::Select {
                table_name: "t".into(),
            },
            Command::Select {
                table_name: "u".into(),
            },
        ]
    };
    let mut by_command = Database::new();
    let mut by_statement = Database::new();
    for (c, s) in commands().into_iter().zip(commands()) {
        let left = execute_command(&mut by_command, c);
        let right = execute(&mut by_statement, command_into_statement(s));
        assert_eq!(left, right);
        assert_eq!(by_command.tables(), by_statement.tables());
    }
    assert!(matches!(
        execute_command(&mut by_command, Command::Select { table_name: "t".into() }),
        Ok(ExecutionResult::Rows(rows)) if rows.len() == 1
    ));
}
