use dblite::command::Command;
use dblite::database::Database;
use dblite::error::DbError;
use dblite::executor::{execute_command, ExecutionError, ExecutionResult};
use dblite::lexer::Token;
use dblite::executor::execute;
use dblite::parser::{command_into_statement, parse, parse_command, ParseError};
use dblite::session::run_line;
use dblite::statement::{ColumnDefinition, ColumnType, Projection, Statement};
use dblite::value::Value;

#[test]
fn readme_commands_parse_as_statements() {
    assert_eq!(
        parse("create users id name age").unwrap(),
        Statement::CreateTable {
            table_name: "users".into(),
            columns: vec![
                ColumnDefinition { name: "id".into(), column_type: ColumnType::Text },
                ColumnDefinition { name: "name".into(), column_type: ColumnType::Text },
                ColumnDefinition { name: "age".into(), column_type: ColumnType::Text },
            ]
        }
    );
    assert_eq!(
        parse("insert users 1 Ana 30").unwrap(),
        Statement::Insert {
            table_name: "users".into(),
            values: vec![
                Value::Integer(1),
                Value::Text("Ana".into()),
                Value::Integer(30)
            ]
        }
    );
    assert_eq!(
        parse("select users").unwrap(),
        Statement::Select {
            projection: Projection::All,
            table_name: "users".into()
        }
    );
    assert_eq!(
        parse("select users now").unwrap_err(),
        ParseError::Token {
            expected: "FROM",
            found: Token::Identifier("now".into())
        }
    );
    assert_eq!(
        parse("insert users 'x' y").unwrap(),
        Statement::Insert {
            table_name: "users".into(),
            values: vec![Value::Text("x".into()), Value::Text("y".into())]
        }
    );
}

#[test]
fn readme_example_through_parse_and_execute() {
    let mut database = Database::new();
    for line in [
        "create users id name age",
        "insert users 1 Ana 30",
        "insert users 2 Bob 28",
    ] {
        execute(&mut database, parse(line).unwrap()).unwrap();
    }
    match execute(&mut database, parse("select users").unwrap()).unwrap() {
        ExecutionResult::Rows(rows) => {
            assert_eq!(rows.len(), 2);
            assert_eq!(
                rows[0].values(),
                &[Value::Integer(1), Value::Text("Ana".into()), Value::Integer(30)]
            );
        }
        other => panic!("expected rows, got {other:?}"),
    }
}

#[test]
fn command_into_statement_keeps_names() {
    assert_eq!(
        command_into_statement(Command::Select { table_name: "t".into() }),
        Statement::Select { projection: Projection::All, table_name: "t".into() }
    );
    assert_eq!(
        command_into_statement(Command::Create {
            table_name: "t".into(),
            columns: vec!["a".into(), "b".into()]
        }),
        Statement::CreateTable {
            table_name: "t".into(),
            columns: vec![
                ColumnDefinition { name: "a".into(), column_type: ColumnType::Text },
                ColumnDefinition { name: "b".into(), column_type: ColumnType::Text },
            ]
        }
    );
}

#[test]
fn readme_commands_parse() {
    assert_eq!(
        parse_command("create users id name age").unwrap(),
        Command::Create {
            table_name: "users".into(),
            columns: vec!["id".into(), "name".into(), "age".into()]
        }
    );
    assert_eq!(
        parse_command("insert users 1 Ana 30").unwrap(),
        Command::Insert {
            table_name: "users".into(),
            values: vec![
                Value::Integer(1),
                Value::Text("Ana".into()),
                Value::Integer(30)
            ]
        }
    );
    assert_eq!(
        parse_command("select users").unwrap(),
        Command::Select {
            table_name: "users".into()
        }
    );
}

#[test]
fn command_parse_errors() {
    assert_eq!(parse_command("").unwrap_err(), ParseError::End("command"));
    assert_eq!(
        parse_command("select users now").unwrap_err(),
        ParseError::Trailing(Token::Identifier("now".into()))
    );
    assert_eq!(
        parse_command("insert users (").unwrap_err(),
        ParseError::Token {
            expected: "value",
            found: Token::LeftParen
        }
    );
    assert_eq!(
        parse_command("create users 1").unwrap_err(),
        ParseError::Token {
            expected: "identifier",
            found: Token::Integer(1)
        }
    );
    assert_eq!(
        parse_command("drop users").unwrap_err(),
        ParseError::Token {
            expected: "command",
            found: Token::Identifier("drop".into())
        }
    );
    assert_eq!(parse_command("@").unwrap_err(), ParseError::End("valid command"));
}

#[test]
fn readme_session_runs() {
    let mut database = Database::new();
    assert_eq!(
        run_line(&mut database, "create users id name age").unwrap(),
        ExecutionResult::TableCreated
    );
    assert_eq!(
        run_line(&mut database, "insert users 1 Ana 30").unwrap(),
        ExecutionResult::RowInserted
    );
    assert_eq!(
        run_line(&mut database, "insert users 2 Bob 28").unwrap(),
        ExecutionResult::RowInserted
    );
    match run_line(&mut database, "select users").unwrap() {
        ExecutionResult::Rows(rows) => {
            assert_eq!(rows.len(), 2);
            assert_eq!(
                rows[1].values(),
                &[
                    Value::Integer(2),
                    Value::Text("Bob".into()),
                    Value::Integer(28)
                ]
            );
        }
        other => panic!("expected rows, got {other:?}"),
    }
    match run_line(&mut database, "SELECT name FROM users;").unwrap() {
        ExecutionResult::Rows(rows) => assert_eq!(rows[0].values(), &[Value::Text("Ana".into())]),
        other => panic!("expected rows, got {other:?}"),
    }
    assert!(matches!(
        run_line(&mut database, "insert users 3"),
        Err(DbError::Execution(ExecutionError::WrongValueCount {
            expected: 3,
            actual: 1
        }))
    ));
    assert!(matches!(
        run_line(&mut database, "select users;"),
        Err(DbError::Parse(ParseError::Token { expected: "FROM", .. }))
    ));
}

#[test]
fn commands_execute_like_statements() {
    let mut database = Database::new();
    execute_command(
        &mut database,
        Command::Create {
            table_name: "t".into(),
            columns: vec!["a".into()],
        },
    )
    .unwrap();
    assert_eq!(
        execute_command(
            &mut database,
            Command::Create {
                table_name: "t".into(),
                columns: vec![],
            },
        )
        .unwrap_err(),
        ExecutionError::TableAlreadyExists("t".into())
    );
    assert_eq!(
        execute_command(
            &mut database,
            Command::Select {
                table_name: "u".into()
            }
        )
        .unwrap_err(),
        ExecutionError::TableNotFound("u".into())
    );
}

#[test]
fn malformed_sql_in_command_shape_reports_the_sql_error() {
    assert_eq!(
        parse("CREATE users (id INT)").unwrap_err(),
        ParseError::Token {
            expected: "TABLE",
            found: Token::Identifier("users".into())
        }
    );
    assert_eq!(
        parse("INSERT users VALUES (1)").unwrap_err(),
        ParseError::Token {
            expected: "INTO",
            found: Token::Identifier("users".into())
        }
    );
    assert_eq!(
        parse("create users id ,").unwrap_err(),
        ParseError::Token {
            expected: "TABLE",
            found: Token::Identifier("users".into())
        }
    );
}
