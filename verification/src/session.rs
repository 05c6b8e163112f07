//! One line of the interactive shell, read and run against a database.

use crate::command::CommandView;
use crate::database::{keys_are_names, Database, EntryView};
use crate::error::{DbError, DbErrorView};
use crate::executor::{
    declared_table, execute, execute_command_spec, execute_spec, ExecutionErrorView,
    ExecutionResult, ExecutionResultView,
};
use crate::lexer::lex_spec;
use crate::parser::{command_statement, parse, parse_spec, untyped_column};
use vstd::prelude::*;

verus! {

/// An execution outcome with its error lifted to any stage.
pub open spec fn lift(outcome: (Result<ExecutionResultView, ExecutionErrorView>, Seq<EntryView>)) -> (
    Result<ExecutionResultView, DbErrorView>,
    Seq<EntryView>,
) {
    match outcome.0 {
        Ok(v) => (Ok(v), outcome.1),
        Err(e) => (Err(DbErrorView::Execution(e)), outcome.1),
    }
}

/// The outcome of a line of the shell on the tables `db`: the line is
/// parsed, and the statement it reads as is run. `None` where lexing does
/// not return.
pub open spec fn line_spec(db: Seq<EntryView>, s: Seq<char>) -> Option<
    (Result<ExecutionResultView, DbErrorView>, Seq<EntryView>),
> {
    match parse_spec(s) {
        None => None,
        Some(Err(e)) => Some((Err(DbErrorView::Parse(e)), db)),
        Some(Ok(st)) => Some(lift(execute_spec(db, st))),
    }
}

/// The view of the outcome of a line.
pub open spec fn line_view(r: Result<ExecutionResult, DbError>) -> Result<
    ExecutionResultView,
    DbErrorView,
> {
    match r {
        Ok(v) => Ok(v@),
        Err(e) => Err(e@),
    }
}

/// Runs one line of the shell on `database`.
pub fn run_line(database: &mut Database, input: &str) -> (r: Result<ExecutionResult, DbError>)
    requires
        lex_spec(input@) is Some,
    ensures
        line_spec(old(database)@, input@) == Some((line_view(r), final(database)@)),
        keys_are_names(old(database)@) ==> keys_are_names(final(database)@),
{
    match parse(input) {
        Ok(statement) => match execute(database, statement) {
            Ok(v) => Ok(v),
            Err(e) => Err(DbError::Execution(e)),
        },
        Err(e) => Err(DbError::Parse(e)),
    }
}

/// Running a short command does what running the statement it stands for
/// does.
pub proof fn lemma_command_runs_as_statement(db: Seq<EntryView>, command: CommandView)
    ensures
        execute_command_spec(db, command) == execute_spec(db, command_statement(command)),
{
    match command {
        CommandView::Create { table_name, columns } => {
            let defs = columns.map_values(|n: Seq<char>| untyped_column(n));
            assert(declared_table(table_name, defs).columns =~= columns);
            assert(declared_table(table_name, defs) == crate::table::TableView {
                name: table_name,
                columns,
                rows: Seq::empty(),
            });
        },
        _ => {},
    }
}

} // verus!
