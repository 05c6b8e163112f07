//! Turns tokens into statements.

use crate::command::{Command, CommandView};
use crate::lexer::{lex, lex_spec, Token, TokenView};
use crate::statement::{
    ColumnDefinition, ColumnDefinitionView, ColumnType, Projection, ProjectionView, Statement,
    StatementView,
};
use crate::value::{Value, ValueView};
use vstd::prelude::*;

verus! {

/// Why a text is not a statement.
#[derive(Debug, Clone, PartialEq, Eq)]
pub enum ParseError {
    End(&'static str),
    Token { expected: &'static str, found: Token },
    Trailing(Token),
}

/// The mathematical value of a parse error.
pub enum ParseErrorView {
    End(Seq<char>),
    Token { expected: Seq<char>, found: TokenView },
    Trailing(TokenView),
}

impl View for ParseError {
    type V = ParseErrorView;

    open spec fn view(&self) -> ParseErrorView {
        match self {
            ParseError::End(what) => ParseErrorView::End(what@),
            ParseError::Token { expected, found } => ParseErrorView::Token {
                expected: expected@,
                found: found@,
            },
            ParseError::Trailing(t) => ParseErrorView::Trailing(t@),
        }
    }
}

/// A position in a sequence of tokens.
pub struct Cursor {
    tokens: Vec<Token>,
    position: usize,
}

impl View for Cursor {
    type V = (Seq<TokenView>, int);

    closed spec fn view(&self) -> (Seq<TokenView>, int) {
        (self.tokens.deep_view(), self.position as int)
    }
}

/// Where the cursor stands after taking the token at `p`, if any.
pub open spec fn step(toks: Seq<TokenView>, p: int) -> int {
    if 0 <= p < toks.len() {
        p + 1
    } else {
        p
    }
}

/// Reading an identifier at `p`.
pub open spec fn identifier_at(toks: Seq<TokenView>, p: int) -> Result<Seq<char>, ParseErrorView> {
    if 0 <= p < toks.len() {
        match toks[p] {
            TokenView::Identifier(v) => Ok(v),
            t => Err(ParseErrorView::Token { expected: "identifier"@, found: t }),
        }
    } else {
        Err(ParseErrorView::End("identifier"@))
    }
}

/// Requiring the token `tok`, called `expected` in errors, at `p`.
pub open spec fn expect_at(toks: Seq<TokenView>, p: int, expected: Seq<char>, tok: TokenView) -> Result<
    (),
    ParseErrorView,
> {
    if 0 <= p < toks.len() {
        if toks[p] == tok {
            Ok(())
        } else {
            Err(ParseErrorView::Token { expected, found: toks[p] })
        }
    } else {
        Err(ParseErrorView::End(expected))
    }
}

/// Reading a literal value at `p`.
pub open spec fn literal_at(toks: Seq<TokenView>, p: int) -> Result<ValueView, ParseErrorView> {
    if 0 <= p < toks.len() {
        match toks[p] {
            TokenView::Integer(v) => Ok(ValueView::Integer(v)),
            TokenView::String(s) => Ok(ValueView::Text(s)),
            t => Err(ParseErrorView::Token { expected: "literal"@, found: t }),
        }
    } else {
        Err(ParseErrorView::End("literal"@))
    }
}

/// Puts `front` before the items of a successful outcome.
pub open spec fn glue<T>(front: Seq<T>, rest: Result<(Seq<T>, int), ParseErrorView>) -> Result<
    (Seq<T>, int),
    ParseErrorView,
> {
    match rest {
        Ok((items, q)) => Ok((front + items, q)),
        Err(e) => Err(e),
    }
}

/// The literals of a list that follow its first one: each is preceded by a
/// comma. Yields them and the position after the last.
pub open spec fn more_literals(toks: Seq<TokenView>, p: int) -> Result<
    (Seq<ValueView>, int),
    ParseErrorView,
>
    decreases toks.len() - p,
{
    if 0 <= p < toks.len() && toks[p] is Comma {
        match literal_at(toks, p + 1) {
            Ok(v) => glue(seq![v], more_literals(toks, p + 2)),
            Err(e) => Err(e),
        }
    } else {
        Ok((Seq::empty(), p))
    }
}

/// The identifiers of a list that follow its first one.
pub open spec fn more_identifiers(toks: Seq<TokenView>, p: int) -> Result<
    (Seq<Seq<char>>, int),
    ParseErrorView,
>
    decreases toks.len() - p,
{
    if 0 <= p < toks.len() && toks[p] is Comma {
        match identifier_at(toks, p + 1) {
            Ok(n) => glue(seq![n], more_identifiers(toks, p + 2)),
            Err(e) => Err(e),
        }
    } else {
        Ok((Seq::empty(), p))
    }
}

/// Reading a column type at `p`.
pub open spec fn column_type_at(toks: Seq<TokenView>, p: int) -> Result<ColumnType, ParseErrorView> {
    if 0 <= p < toks.len() {
        match toks[p] {
            TokenView::Int => Ok(ColumnType::Integer),
            TokenView::Text => Ok(ColumnType::Text),
            t => Err(ParseErrorView::Token { expected: "INT or TEXT"@, found: t }),
        }
    } else {
        Err(ParseErrorView::End("column type"@))
    }
}

/// The comma-separated column declarations starting at `p`.
pub open spec fn columns_at(toks: Seq<TokenView>, p: int) -> Result<
    (Seq<ColumnDefinitionView>, int),
    ParseErrorView,
>
    decreases toks.len() - p,
{
    match identifier_at(toks, p) {
        Err(e) => Err(e),
        Ok(name) => match column_type_at(toks, p + 1) {
            Err(e) => Err(e),
            Ok(ty) => {
                let c = ColumnDefinitionView { name, column_type: ty };
                if 0 <= p + 2 < toks.len() && toks[p + 2] is Comma {
                    glue(seq![c], columns_at(toks, p + 3))
                } else {
                    Ok((seq![c], p + 2))
                }
            },
        },
    }
}

/// `TABLE name ( columns ) ;` from `p` on; the closing semicolon may be
/// left out at the end of the input.
pub open spec fn create_table_at(toks: Seq<TokenView>, p: int) -> Result<
    (StatementView, int),
    ParseErrorView,
> {
    match expect_at(toks, p, "TABLE"@, TokenView::Table) {
        Err(e) => Err(e),
        Ok(_) => match identifier_at(toks, p + 1) {
            Err(e) => Err(e),
            Ok(table_name) => match expect_at(toks, p + 2, "("@, TokenView::LeftParen) {
                Err(e) => Err(e),
                Ok(_) => match columns_at(toks, p + 3) {
                    Err(e) => Err(e),
                    Ok((columns, q)) => match expect_at(toks, q, ")"@, TokenView::RightParen) {
                        Err(e) => Err(e),
                        Ok(_) => if q + 1 >= toks.len() {
                            Ok((StatementView::CreateTable { table_name, columns }, q + 1))
                        } else {
                            match expect_at(toks, q + 1, ";"@, TokenView::Semicolon) {
                                Err(e) => Err(e),
                                Ok(_) => Ok(
                                    (StatementView::CreateTable { table_name, columns }, q + 2),
                                ),
                            }
                        },
                    },
                },
            },
        },
    }
}

/// `INTO name VALUES ( literals ) ;` from `p` on.
pub open spec fn insert_at(toks: Seq<TokenView>, p: int) -> Result<
    (StatementView, int),
    ParseErrorView,
> {
    match expect_at(toks, p, "INTO"@, TokenView::Into) {
        Err(e) => Err(e),
        Ok(_) => match identifier_at(toks, p + 1) {
            Err(e) => Err(e),
            Ok(table_name) => match expect_at(toks, p + 2, "VALUES"@, TokenView::Values) {
                Err(e) => Err(e),
                Ok(_) => match expect_at(toks, p + 3, "("@, TokenView::LeftParen) {
                    Err(e) => Err(e),
                    Ok(_) => match literal_at(toks, p + 4) {
                        Err(e) => Err(e),
                        Ok(first) => match more_literals(toks, p + 5) {
                            Err(e) => Err(e),
                            Ok((rest, q)) => match expect_at(
                                toks,
                                q,
                                "')'"@,
                                TokenView::RightParen,
                            ) {
                                Err(e) => Err(e),
                                Ok(_) => match expect_at(toks, q + 1, "';'"@, TokenView::Semicolon) {
                                    Err(e) => Err(e),
                                    Ok(_) => Ok(
                                        (
                                            StatementView::Insert {
                                                table_name,
                                                values: seq![first] + rest,
                                            },
                                            q + 2,
                                        ),
                                    ),
                                },
                            },
                        },
                    },
                },
            },
        },
    }
}

/// `*` or a comma-separated list of column names, from `p` on.
pub open spec fn projection_at(toks: Seq<TokenView>, p: int) -> Result<
    (ProjectionView, int),
    ParseErrorView,
> {
    if 0 <= p < toks.len() && toks[p] is Star {
        Ok((ProjectionView::All, p + 1))
    } else {
        match identifier_at(toks, p) {
            Err(e) => Err(e),
            Ok(first) => match more_identifiers(toks, p + 1) {
                Err(e) => Err(e),
                Ok((rest, q)) => Ok((ProjectionView::Columns(seq![first] + rest), q)),
            },
        }
    }
}

/// `projection FROM name ;` from `p` on.
pub open spec fn select_at(toks: Seq<TokenView>, p: int) -> Result<
    (StatementView, int),
    ParseErrorView,
> {
    match projection_at(toks, p) {
        Err(e) => Err(e),
        Ok((projection, q)) => match expect_at(toks, q, "FROM"@, TokenView::From) {
            Err(e) => Err(e),
            Ok(_) => match identifier_at(toks, q + 1) {
                Err(e) => Err(e),
                Ok(table_name) => match expect_at(toks, q + 2, "';'"@, TokenView::Semicolon) {
                    Err(e) => Err(e),
                    Ok(_) => Ok((StatementView::Select { projection, table_name }, q + 3)),
                },
            },
        },
    }
}

/// The statement that a whole sequence of tokens spells.
pub open spec fn statement_of(toks: Seq<TokenView>) -> Result<StatementView, ParseErrorView> {
    if toks.len() == 0 {
        Err(ParseErrorView::End("statement"@))
    } else {
        let body = match toks[0] {
            TokenView::Create => create_table_at(toks, 1),
            TokenView::Insert => insert_at(toks, 1),
            TokenView::Select => select_at(toks, 1),
            t => Err(ParseErrorView::Token { expected: "statement"@, found: t }),
        };
        match body {
            Err(e) => Err(e),
            Ok((st, q)) => if 0 <= q < toks.len() {
                Err(ParseErrorView::Trailing(toks[q]))
            } else {
                Ok(st)
            },
        }
    }
}

/// The column names of a short `create` command, from `p` to the end.
pub open spec fn names_from(toks: Seq<TokenView>, p: int) -> Result<Seq<Seq<char>>, ParseErrorView>
    decreases toks.len() - p,
{
    if p < 0 || p >= toks.len() {
        Ok(Seq::empty())
    } else {
        match toks[p] {
            TokenView::Identifier(n) => match names_from(toks, p + 1) {
                Ok(ns) => Ok(seq![n] + ns),
                Err(e) => Err(e),
            },
            t => Err(ParseErrorView::Token { expected: "identifier"@, found: t }),
        }
    }
}

/// A value of a short `insert` command: an integer, a quoted text, or a
/// bare word, which stands for itself as text.
pub open spec fn command_value(t: TokenView) -> Option<ValueView> {
    match t {
        TokenView::Integer(i) => Some(ValueView::Integer(i)),
        TokenView::String(s) => Some(ValueView::Text(s)),
        TokenView::Identifier(s) => Some(ValueView::Text(s)),
        _ => None,
    }
}

/// The values of a short `insert` command, from `p` to the end.
pub open spec fn values_from(toks: Seq<TokenView>, p: int) -> Result<Seq<ValueView>, ParseErrorView>
    decreases toks.len() - p,
{
    if p < 0 || p >= toks.len() {
        Ok(Seq::empty())
    } else {
        match command_value(toks[p]) {
            Some(v) => match values_from(toks, p + 1) {
                Ok(vs) => Ok(seq![v] + vs),
                Err(e) => Err(e),
            },
            None => Err(ParseErrorView::Token { expected: "value"@, found: toks[p] }),
        }
    }
}

/// The short command that a whole sequence of tokens spells.
pub open spec fn command_of(toks: Seq<TokenView>) -> Result<CommandView, ParseErrorView> {
    if toks.len() == 0 {
        Err(ParseErrorView::End("command"@))
    } else {
        match toks[0] {
            TokenView::Create => match identifier_at(toks, 1) {
                Err(e) => Err(e),
                Ok(table_name) => match names_from(toks, 2) {
                    Err(e) => Err(e),
                    Ok(columns) => Ok(CommandView::Create { table_name, columns }),
                },
            },
            TokenView::Insert => match identifier_at(toks, 1) {
                Err(e) => Err(e),
                Ok(table_name) => match values_from(toks, 2) {
                    Err(e) => Err(e),
                    Ok(values) => Ok(CommandView::Insert { table_name, values }),
                },
            },
            TokenView::Select => match identifier_at(toks, 1) {
                Err(e) => Err(e),
                Ok(table_name) => if 2 < toks.len() {
                    Err(ParseErrorView::Trailing(toks[2]))
                } else {
                    Ok(CommandView::Select { table_name })
                },
            },
            t => Err(ParseErrorView::Token { expected: "command"@, found: t }),
        }
    }
}

/// Tokens in the shape of a short command rather than of SQL: `create` or
/// `insert` followed by a name, or `select` followed by a name and nothing
/// else. No SQL statement starts so.
pub open spec fn is_command_shape(toks: Seq<TokenView>) -> bool {
    &&& toks.len() >= 2
    &&& toks[1] is Identifier
    &&& (toks[0] is Create || toks[0] is Insert || (toks[0] is Select && toks.len() == 2))
}

/// The outcome of parsing a text as a short command.
pub open spec fn command_spec(s: Seq<char>) -> Option<Result<CommandView, ParseErrorView>> {
    match lex_spec(s) {
        None => None,
        Some(Err(_)) => Some(Err(ParseErrorView::End("valid command"@))),
        Some(Ok(toks)) => Some(command_of(toks)),
    }
}

/// The column a short `create` declares under `name`. The short form names
/// no types; its columns read as `TEXT`. A table keeps only the names of
/// its columns, so the type has no effect on what it stores.
pub open spec fn untyped_column(name: Seq<char>) -> ColumnDefinitionView {
    ColumnDefinitionView { name, column_type: ColumnType::Text }
}

/// The statement a short command stands for: `create` is a `CREATE TABLE`,
/// `insert` an `INSERT` and `select` a `SELECT *`.
pub open spec fn command_statement(command: CommandView) -> StatementView {
    match command {
        CommandView::Create { table_name, columns } => StatementView::CreateTable {
            table_name,
            columns: columns.map_values(|n: Seq<char>| untyped_column(n)),
        },
        CommandView::Insert { table_name, values } => StatementView::Insert { table_name, values },
        CommandView::Select { table_name } => StatementView::Select {
            projection: ProjectionView::All,
            table_name,
        },
    }
}

/// The statement that a whole line of tokens spells: the short command it
/// reads as, where it is in that shape and reads as one; SQL otherwise, so
/// that a line that is neither is refused with the SQL reading's error.
pub open spec fn line_statement(toks: Seq<TokenView>) -> Result<StatementView, ParseErrorView> {
    if is_command_shape(toks) && command_of(toks) is Ok {
        Ok(command_statement(command_of(toks)->Ok_0))
    } else {
        statement_of(toks)
    }
}

/// The outcome of parsing a text: `None` where lexing does not return.
pub open spec fn parse_spec(s: Seq<char>) -> Option<Result<StatementView, ParseErrorView>> {
    match lex_spec(s) {
        None => None,
        Some(Err(_)) => Some(Err(ParseErrorView::End("valid SQL"@))),
        Some(Ok(toks)) => Some(line_statement(toks)),
    }
}

/// The view of a parse result together with the position reached.
pub open spec fn parsed_view<T: View>(r: Result<T, ParseError>, q: int) -> Result<
    (T::V, int),
    ParseErrorView,
> {
    match r {
        Ok(v) => Ok((v@, q)),
        Err(e) => Err(e@),
    }
}

/// Gluing two groups in front, one after the other, is gluing their
/// concatenation.
pub proof fn lemma_glue_twice<T>(a: Seq<T>, b: Seq<T>, rest: Result<(Seq<T>, int), ParseErrorView>)
    ensures
        glue(a, glue(b, rest)) == glue(a + b, rest),
{
    if let Ok((items, q)) = rest {
        assert(a + (b + items) =~= (a + b) + items);
    }
}

/// Gluing nothing in front changes nothing.
pub proof fn lemma_glue_empty<T>(rest: Result<(Seq<T>, int), ParseErrorView>)
    ensures
        glue(Seq::<T>::empty(), rest) == rest,
{
    if let Ok((items, q)) = rest {
        assert(Seq::<T>::empty() + items =~= items);
    }
}

/// The view of a parse result.
pub open spec fn parse_result_view<T: View>(r: Result<T, ParseError>) -> Result<
    T::V,
    ParseErrorView,
> {
    match r {
        Ok(v) => Ok(v@),
        Err(e) => Err(e@),
    }
}

impl Cursor {
    /// A cursor at the first of `tokens`.
    pub fn new(tokens: Vec<Token>) -> (r: Self)
        ensures
            r@ == (tokens.deep_view(), 0int),
    {
        Cursor { tokens, position: 0 }
    }

    /// The token at the cursor, if any.
    pub fn peek(&self) -> (r: Option<&Token>)
        ensures
            0 <= self@.1 < self@.0.len() ==> (r matches Some(t) && t@ == self@.0[self@.1]),
            !(0 <= self@.1 < self@.0.len()) ==> r is None,
    {
        if self.position < self.tokens.len() {
            assert(self@.0[self@.1] == self.tokens@[self.position as int]@);
            Some(&self.tokens[self.position])
        } else {
            None
        }
    }

    /// Takes the token at the cursor, if any, and moves past it.
    pub fn next(&mut self) -> (r: Option<Token>)
        ensures
            final(self)@.0 == old(self)@.0,
            final(self)@.1 == step(old(self)@.0, old(self)@.1),
            0 <= old(self)@.1 < old(self)@.0.len() ==> (r matches Some(t) && t@ == old(
                self,
            )@.0[old(self)@.1]),
            !(0 <= old(self)@.1 < old(self)@.0.len()) ==> r is None,
    {
        if self.position < self.tokens.len() {
            assert(self@.0[self@.1] == self.tokens@[self.position as int]@);
            let t = self.tokens[self.position].clone();
            self.position = self.position + 1;
            Some(t)
        } else {
            None
        }
    }

    /// Takes an identifier.
    pub fn identifier(&mut self) -> (r: Result<String, ParseError>)
        ensures
            final(self)@.0 == old(self)@.0,
            final(self)@.1 == step(old(self)@.0, old(self)@.1),
            parse_result_view(r) == identifier_at(old(self)@.0, old(self)@.1),
    {
        match self.next() {
            Some(Token::Identifier(value)) => Ok(value),
            Some(token) => Err(ParseError::Token { expected: "identifier", found: token }),
            None => Err(ParseError::End("identifier")),
        }
    }

    /// Takes the token `token`, or reports what was found, naming the
    /// wanted token `expected`.
    pub fn expect(&mut self, expected: &'static str, token: Token) -> (r: Result<(), ParseError>)
        ensures
            final(self)@.0 == old(self)@.0,
            final(self)@.1 == step(old(self)@.0, old(self)@.1),
            parse_result_view(r) == expect_at(old(self)@.0, old(self)@.1, expected@, token@),
    {
        match self.next() {
            Some(found) => {
                if found.same_as(&token) {
                    Ok(())
                } else {
                    Err(ParseError::Token { expected, found })
                }
            },
            None => Err(ParseError::End(expected)),
        }
    }

    /// Tests whether the token at the cursor is a comma.
    fn at_comma(&self) -> (r: bool)
        ensures
            r == (0 <= self@.1 < self@.0.len() && self@.0[self@.1] is Comma),
    {
        match self.peek() {
            Some(Token::Comma) => true,
            _ => false,
        }
    }

    /// Tests whether the token at the cursor is a star.
    fn at_star(&self) -> (r: bool)
        ensures
            r == (0 <= self@.1 < self@.0.len() && self@.0[self@.1] is Star),
    {
        match self.peek() {
            Some(Token::Star) => true,
            _ => false,
        }
    }
}

/// Reads one literal.
fn literal(cursor: &mut Cursor) -> (r: Result<Value, ParseError>)
    ensures
        final(cursor)@.0 == old(cursor)@.0,
        final(cursor)@.1 == step(old(cursor)@.0, old(cursor)@.1),
        parse_result_view(r) == literal_at(old(cursor)@.0, old(cursor)@.1),
{
    match cursor.next() {
        Some(Token::Integer(value)) => Ok(Value::Integer(value)),
        Some(Token::String(value)) => Ok(Value::Text(value)),
        Some(found) => Err(ParseError::Token { expected: "literal", found }),
        None => Err(ParseError::End("literal")),
    }
}

/// Reads `INTO name VALUES ( literals ) ;`.
fn parse_insert(cursor: &mut Cursor) -> (r: Result<Statement, ParseError>)
    ensures
        final(cursor)@.0 == old(cursor)@.0,
        parsed_view(r, final(cursor)@.1) == insert_at(old(cursor)@.0, old(cursor)@.1),
{
    let ghost toks = cursor@.0;
    let ghost p = cursor@.1;
    cursor.expect("INTO", Token::Into)?;
    let table_name = cursor.identifier()?;
    cursor.expect("VALUES", Token::Values)?;
    cursor.expect("(", Token::LeftParen)?;
    let first = literal(cursor)?;
    let ghost p0 = cursor@.1;
    assert(p0 == p + 5);
    let mut values = vec![first];
    let ghost mut acc: Seq<ValueView> = Seq::empty();
    proof {
        lemma_glue_empty(more_literals(toks, p0));
    }
    while cursor.at_comma()
        invariant
            cursor@.0 == toks,
            toks == old(cursor)@.0,
            p == old(cursor)@.1,
            p0 == p + 5,
            expect_at(toks, p, "INTO"@, TokenView::Into) is Ok,
            identifier_at(toks, p + 1) == Ok::<Seq<char>, ParseErrorView>(table_name@),
            expect_at(toks, p + 2, "VALUES"@, TokenView::Values) is Ok,
            expect_at(toks, p + 3, "("@, TokenView::LeftParen) is Ok,
            literal_at(toks, p + 4) == Ok::<ValueView, ParseErrorView>(first@),
            p0 <= cursor@.1 <= toks.len(),
            values.deep_view() == seq![first@] + acc,
            more_literals(toks, p0) == glue(acc, more_literals(toks, cursor@.1)),
        decreases toks.len() - cursor@.1,
    {
        let ghost cur = cursor@.1;
        cursor.next();
        match literal(cursor) {
            Ok(v) => {
                proof {
                    lemma_glue_twice(acc, seq![v@], more_literals(toks, cur + 2));
                }
                let ghost before = values.deep_view();
                let ghost vv = v@;
                values.push(v);
                assert(values.deep_view() =~= before.push(vv));
                proof {
                    acc = acc + seq![vv];
                }
                assert(values.deep_view() =~= seq![first@] + acc);
            },
            Err(e) => {
                return Err(e);
            },
        }
    }
    assert(acc + Seq::<ValueView>::empty() =~= acc);
    cursor.expect("')'", Token::RightParen)?;
    cursor.expect("';'", Token::Semicolon)?;
    Ok(Statement::Insert { table_name, values })
}

/// Reads `*` or a comma-separated list of column names.
fn projection(cursor: &mut Cursor) -> (r: Result<Projection, ParseError>)
    ensures
        final(cursor)@.0 == old(cursor)@.0,
        parsed_view(r, final(cursor)@.1) == projection_at(old(cursor)@.0, old(cursor)@.1),
{
    let ghost toks = cursor@.0;
    let ghost p = cursor@.1;
    if cursor.at_star() {
        cursor.next();
        return Ok(Projection::All);
    }
    let first = cursor.identifier()?;
    let ghost p0 = cursor@.1;
    let mut names = vec![first];
    let ghost mut acc: Seq<Seq<char>> = Seq::empty();
    proof {
        lemma_glue_empty(more_identifiers(toks, p0));
    }
    while cursor.at_comma()
        invariant
            cursor@.0 == toks,
            toks == old(cursor)@.0,
            p == old(cursor)@.1,
            p0 == p + 1,
            !(0 <= p < toks.len() && toks[p] is Star),
            identifier_at(toks, p) == Ok::<Seq<char>, ParseErrorView>(first@),
            p0 <= cursor@.1 <= toks.len(),
            names.deep_view() == seq![first@] + acc,
            more_identifiers(toks, p0) == glue(acc, more_identifiers(toks, cursor@.1)),
        decreases toks.len() - cursor@.1,
    {
        let ghost cur = cursor@.1;
        cursor.next();
        match cursor.identifier() {
            Ok(n) => {
                proof {
                    lemma_glue_twice(acc, seq![n@], more_identifiers(toks, cur + 2));
                }
                let ghost before = names.deep_view();
                let ghost nv = n@;
                names.push(n);
                assert(names.deep_view() =~= before.push(nv));
                proof {
                    acc = acc + seq![nv];
                }
                assert(names.deep_view() =~= seq![first@] + acc);
            },
            Err(e) => {
                return Err(e);
            },
        }
    }
    assert(acc + Seq::<Seq<char>>::empty() =~= acc);
    Ok(Projection::Columns(names))
}

/// Reads `projection FROM name ;`.
fn parse_select(cursor: &mut Cursor) -> (r: Result<Statement, ParseError>)
    ensures
        final(cursor)@.0 == old(cursor)@.0,
        parsed_view(r, final(cursor)@.1) == select_at(old(cursor)@.0, old(cursor)@.1),
{
    let projection = projection(cursor)?;
    cursor.expect("FROM", Token::From)?;
    let table_name = cursor.identifier()?;
    cursor.expect("';'", Token::Semicolon)?;
    Ok(Statement::Select { table_name, projection })
}

/// Reads `TABLE name ( columns ) ;`, where the semicolon may be left out
/// at the end of the input.
fn parse_create_table(cursor: &mut Cursor) -> (r: Result<Statement, ParseError>)
    ensures
        final(cursor)@.0 == old(cursor)@.0,
        parsed_view(r, final(cursor)@.1) == create_table_at(old(cursor)@.0, old(cursor)@.1),
{
    let ghost toks = cursor@.0;
    let ghost p = cursor@.1;
    cursor.expect("TABLE", Token::Table)?;
    let table_name = cursor.identifier()?;
    cursor.expect("(", Token::LeftParen)?;
    let ghost p0 = cursor@.1;
    let mut columns: Vec<ColumnDefinition> = Vec::new();
    let ghost mut acc: Seq<ColumnDefinitionView> = Seq::empty();
    proof {
        lemma_glue_empty(columns_at(toks, p0));
    }
    loop
        invariant_except_break
            columns_at(toks, p0) == glue(acc, columns_at(toks, cursor@.1)),
        invariant
            cursor@.0 == toks,
            toks == old(cursor)@.0,
            p == old(cursor)@.1,
            p0 == p + 3,
            expect_at(toks, p, "TABLE"@, TokenView::Table) is Ok,
            identifier_at(toks, p + 1) == Ok::<Seq<char>, ParseErrorView>(table_name@),
            expect_at(toks, p + 2, "("@, TokenView::LeftParen) is Ok,
            p0 <= cursor@.1 <= toks.len(),
            columns.deep_view() == acc,
        ensures
            columns_at(toks, p0) == Ok::<(Seq<ColumnDefinitionView>, int), ParseErrorView>(
                (acc, cursor@.1),
            ),
        decreases toks.len() - cursor@.1,
    {
        let ghost cur = cursor@.1;
        let name = match cursor.identifier() {
            Ok(n) => n,
            Err(e) => {
                return Err(e);
            },
        };
        let column_type = match cursor.next() {
            Some(Token::Int) => ColumnType::Integer,
            Some(Token::Text) => ColumnType::Text,
            Some(found) => {
                return Err(ParseError::Token { expected: "INT or TEXT", found });
            },
            None => {
                return Err(ParseError::End("column type"));
            },
        };
        let c = ColumnDefinition { name, column_type };
        let ghost cv = c@;
        let ghost before = columns.deep_view();
        columns.push(c);
        assert(columns.deep_view() =~= before.push(cv));
        proof {
            lemma_glue_twice(acc, seq![cv], columns_at(toks, cur + 3));
            acc = acc + seq![cv];
        }
        assert(columns.deep_view() =~= acc);
        if !cursor.at_comma() {
            assert(acc =~= acc + Seq::<ColumnDefinitionView>::empty());
            break;
        }
        cursor.next();
    }
    cursor.expect(")", Token::RightParen)?;
    if cursor.peek().is_some() {
        cursor.expect(";", Token::Semicolon)?;
    }
    Ok(Statement::CreateTable { table_name, columns })
}

/// Parses a whole statement from `tokens`.
pub(crate) fn parse_tokens(tokens: Vec<Token>) -> (r: Result<Statement, ParseError>)
    ensures
        parse_result_view(r) == statement_of(tokens.deep_view()),
{
    let mut cursor = Cursor::new(tokens);
    let ghost toks = cursor@.0;
    let statement = match cursor.next() {
        Some(Token::Create) => parse_create_table(&mut cursor)?,
        Some(Token::Insert) => parse_insert(&mut cursor)?,
        Some(Token::Select) => parse_select(&mut cursor)?,
        Some(found) => {
            return Err(ParseError::Token { expected: "statement", found });
        },
        None => {
            return Err(ParseError::End("statement"));
        },
    };
    if let Some(found) = cursor.next() {
        return Err(ParseError::Trailing(found));
    };
    Ok(statement)
}

/// The statement a short command stands for.
pub fn command_into_statement(command: Command) -> (r: Statement)
    ensures
        r@ == command_statement(command@),
{
    match command {
        Command::Create { table_name, columns } => {
            let mut defs: Vec<ColumnDefinition> = Vec::new();
            let mut i: usize = 0;
            while i < columns.len()
                invariant
                    i <= columns@.len(),
                    defs.deep_view() == columns.deep_view().take(i as int).map_values(
                        |n: Seq<char>| untyped_column(n),
                    ),
                decreases columns@.len() - i,
            {
                let ghost before = defs.deep_view();
                let d = ColumnDefinition { name: columns[i].clone(), column_type: ColumnType::Text };
                assert(d.deep_view() == untyped_column(columns.deep_view()[i as int]));
                defs.push(d);
                assert(defs.deep_view() =~= before.push(untyped_column(columns.deep_view()[i as int])));
                assert(defs.deep_view() =~= columns.deep_view().take(i + 1).map_values(
                    |n: Seq<char>| untyped_column(n),
                ));
                i = i + 1;
            }
            assert(columns.deep_view().take(columns@.len() as int) =~= columns.deep_view());
            Statement::CreateTable { table_name, columns: defs }
        },
        Command::Insert { table_name, values } => Statement::Insert { table_name, values },
        Command::Select { table_name } => Statement::Select { projection: Projection::All, table_name },
    }
}

/// The error that reading tokens in the shape of a short command as SQL
/// gives: such tokens never spell an SQL statement.
fn command_shape_sql_error(tokens: &Vec<Token>) -> (r: ParseError)
    requires
        is_command_shape(tokens.deep_view()),
    ensures
        statement_of(tokens.deep_view()) == Err::<StatementView, ParseErrorView>(r@),
{
    let ghost toks = tokens.deep_view();
    assert(toks[0] == tokens@[0]@ && toks[1] == tokens@[1]@);
    match &tokens[0] {
        Token::Create => ParseError::Token { expected: "TABLE", found: tokens[1].clone() },
        Token::Insert => ParseError::Token { expected: "INTO", found: tokens[1].clone() },
        _ => {
            assert(projection_at(toks, 1) == Ok::<(ProjectionView, int), ParseErrorView>(
                (ProjectionView::Columns(seq![toks[1]->Identifier_0]), 2),
            ));
            ParseError::End("FROM")
        },
    }
}

/// Parses one line of `input`: a short command of the shell (`create NAME
/// COLUMN...`, `insert NAME VALUE...`, `select NAME`), read as the
/// statement it stands for, or an SQL statement. A text that does not lex
/// is reported as an unexpected end, naming valid SQL.
pub fn parse(input: &str) -> (r: Result<Statement, ParseError>)
    requires
        lex_spec(input@) is Some,
    ensures
        parse_spec(input@) == Some(parse_result_view(r)),
{
    match lex(input) {
        Ok(tokens) => if command_shape(&tokens) {
            let sql_error = command_shape_sql_error(&tokens);
            match command_from_tokens(tokens) {
                Ok(command) => Ok(command_into_statement(command)),
                Err(_) => Err(sql_error),
            }
        } else {
            parse_tokens(tokens)
        },
        Err(_) => Err(ParseError::End("valid SQL")),
    }
}

/// Tests whether tokens are in the shape of a short command.
pub fn command_shape(tokens: &Vec<Token>) -> (r: bool)
    ensures
        r == is_command_shape(tokens.deep_view()),
{
    if tokens.len() < 2 {
        return false;
    }
    let second_is_name = match &tokens[1] {
        Token::Identifier(_) => true,
        _ => false,
    };
    let r = second_is_name && match &tokens[0] {
        Token::Create => true,
        Token::Insert => true,
        Token::Select => tokens.len() == 2,
        _ => false,
    };
    assert(tokens.deep_view()[0] == tokens@[0]@ && tokens.deep_view()[1] == tokens@[1]@);
    r
}

/// Parses a whole short command from `tokens`.
pub(crate) fn command_from_tokens(tokens: Vec<Token>) -> (r: Result<Command, ParseError>)
    ensures
        parse_result_view(r) == command_of(tokens.deep_view()),
{
    let mut cursor = Cursor::new(tokens);
    let ghost toks = cursor@.0;
    match cursor.next() {
        Some(Token::Create) => {
            let table_name = cursor.identifier()?;
            let mut columns: Vec<String> = Vec::new();
            let ghost mut acc: Seq<Seq<char>> = Seq::empty();
            while cursor.peek().is_some()
                invariant
                    cursor@.0 == toks,
                    toks == tokens.deep_view(),
                    2 <= cursor@.1 <= toks.len(),
                    columns.deep_view() == acc,
                    names_from(toks, 2) == match names_from(toks, cursor@.1) {
                        Ok(ns) => Ok::<Seq<Seq<char>>, ParseErrorView>(acc + ns),
                        Err(e) => Err(e),
                    },
                    toks.len() > 0 && toks[0] is Create,
                    identifier_at(toks, 1) == Ok::<Seq<char>, ParseErrorView>(table_name@),
                decreases toks.len() - cursor@.1,
            {
                let ghost cur = cursor@.1;
                let name = cursor.identifier()?;
                let ghost before = columns.deep_view();
                let ghost nv = name@;
                columns.push(name);
                assert(columns.deep_view() =~= before.push(nv));
                proof {
                    match names_from(toks, cur + 1) {
                        Ok(ns) => {
                            assert(acc + (seq![nv] + ns) =~= (acc + seq![nv]) + ns);
                        },
                        Err(_) => {},
                    }
                    acc = acc + seq![nv];
                }
            }
            assert(acc + Seq::<Seq<char>>::empty() =~= acc);
            Ok(Command::Create { table_name, columns })
        },
        Some(Token::Insert) => {
            let table_name = cursor.identifier()?;
            let mut values: Vec<Value> = Vec::new();
            let ghost mut acc: Seq<ValueView> = Seq::empty();
            while cursor.peek().is_some()
                invariant
                    cursor@.0 == toks,
                    toks == tokens.deep_view(),
                    2 <= cursor@.1 <= toks.len(),
                    values.deep_view() == acc,
                    values_from(toks, 2) == match values_from(toks, cursor@.1) {
                        Ok(vs) => Ok::<Seq<ValueView>, ParseErrorView>(acc + vs),
                        Err(e) => Err(e),
                    },
                    toks.len() > 0 && toks[0] is Insert,
                    identifier_at(toks, 1) == Ok::<Seq<char>, ParseErrorView>(table_name@),
                decreases toks.len() - cursor@.1,
            {
                let ghost cur = cursor@.1;
                let v = match cursor.next() {
                    Some(Token::Integer(i)) => Value::Integer(i),
                    Some(Token::String(s)) => Value::Text(s),
                    Some(Token::Identifier(s)) => Value::Text(s),
                    Some(found) => {
                        return Err(ParseError::Token { expected: "value", found });
                    },
                    None => {
                        return Err(ParseError::End("value"));
                    },
                };
                let ghost before = values.deep_view();
                let ghost vv = v@;
                values.push(v);
                assert(values.deep_view() =~= before.push(vv));
                proof {
                    match values_from(toks, cur + 1) {
                        Ok(vs) => {
                            assert(acc + (seq![vv] + vs) =~= (acc + seq![vv]) + vs);
                        },
                        Err(_) => {},
                    }
                    acc = acc + seq![vv];
                }
            }
            assert(acc + Seq::<ValueView>::empty() =~= acc);
            Ok(Command::Insert { table_name, values })
        },
        Some(Token::Select) => {
            let table_name = cursor.identifier()?;
            if let Some(found) = cursor.next() {
                return Err(ParseError::Trailing(found));
            }
            Ok(Command::Select { table_name })
        },
        Some(found) => Err(ParseError::Token { expected: "command", found }),
        None => Err(ParseError::End("command")),
    }
}

/// Parses `input` as a short command of the shell: `create NAME COLUMN...`,
/// `insert NAME VALUE...` or `select NAME`. A text that does not lex is
/// reported as an unexpected end, naming a valid command.
pub fn parse_command(input: &str) -> (r: Result<Command, ParseError>)
    requires
        lex_spec(input@) is Some,
    ensures
        command_spec(input@) == Some(parse_result_view(r)),
{
    match lex(input) {
        Ok(tokens) => command_from_tokens(tokens),
        Err(_) => Err(ParseError::End("valid command")),
    }
}

} // verus!
