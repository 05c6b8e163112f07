use dblite::lexer::{lex, LexError, Token};

#[test]
fn token_data_is_comparable() {
    assert_eq!(
        Token::Identifier("users".into()),
        Token::Identifier("users".into())
    );
    assert_eq!(Token::Integer(32), Token::Integer(32));
}

#[test]
fn lex_create_table_strings() {
    assert_eq!(
        lex("CREATE TABLE users (id INT, name TEXT);").unwrap(),
        vec![
            Token::Create,
            Token::Table,
            Token::Identifier("users".into()),
            Token::LeftParen,
            Token::Identifier("id".into()),
            Token::Int,
            Token::Comma,
            Token::Identifier("name".into()),
            Token::Text,
            Token::RightParen,
            Token::Semicolon
        ]
    );

    assert_eq!(
        lex("'Luciano Correial'").unwrap(),
        vec![Token::String("Luciano Correial".into())]
    );
}

#[test]
fn rejects_invalid_input() {
    assert_eq!(
        lex("@").unwrap_err(),
        LexError::Unexpected {
            position: 0,
            character: '@'
        }
    );
    assert_eq!(
        lex("'open").unwrap_err(),
        LexError::UnterminatedString { position: 0 }
    );
}
