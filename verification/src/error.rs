//! One error type for every stage.

use crate::executor::{ExecutionError, ExecutionErrorView};
use crate::lexer::LexError;
use crate::parser::{ParseError, ParseErrorView};
use crate::storage::{StorageError, StorageErrorView};
use vstd::prelude::*;

verus! {

/// An error of any stage: lexing, parsing, execution or storage.
#[derive(Debug)]
pub enum DbError {
    Lex(LexError),
    Parse(ParseError),
    Execution(ExecutionError),
    Storage(StorageError),
}

/// The mathematical value of an error of any stage.
pub enum DbErrorView {
    Lex(LexError),
    Parse(ParseErrorView),
    Execution(ExecutionErrorView),
    Storage(StorageErrorView),
}

impl View for DbError {
    type V = DbErrorView;

    open spec fn view(&self) -> DbErrorView {
        match self {
            DbError::Lex(e) => DbErrorView::Lex(*e),
            DbError::Parse(e) => DbErrorView::Parse(e@),
            DbError::Execution(e) => DbErrorView::Execution(e@),
            DbError::Storage(e) => DbErrorView::Storage(e@),
        }
    }
}

impl From<LexError> for DbError {
    fn from(value: LexError) -> (r: Self) {
        DbError::Lex(value)
    }
}

impl vstd::std_specs::convert::FromSpecImpl<LexError> for DbError {
    open spec fn obeys_from_spec() -> bool {
        true
    }

    open spec fn from_spec(value: LexError) -> Self {
        DbError::Lex(value)
    }
}

impl From<ParseError> for DbError {
    fn from(value: ParseError) -> (r: Self) {
        DbError::Parse(value)
    }
}

impl vstd::std_specs::convert::FromSpecImpl<ParseError> for DbError {
    open spec fn obeys_from_spec() -> bool {
        true
    }

    open spec fn from_spec(value: ParseError) -> Self {
        DbError::Parse(value)
    }
}

impl From<ExecutionError> for DbError {
    fn from(value: ExecutionError) -> (r: Self) {
        DbError::Execution(value)
    }
}

impl vstd::std_specs::convert::FromSpecImpl<ExecutionError> for DbError {
    open spec fn obeys_from_spec() -> bool {
        true
    }

    open spec fn from_spec(value: ExecutionError) -> Self {
        DbError::Execution(value)
    }
}

impl From<StorageError> for DbError {
    fn from(value: StorageError) -> (r: Self) {
        DbError::Storage(value)
    }
}

impl vstd::std_specs::convert::FromSpecImpl<StorageError> for DbError {
    open spec fn obeys_from_spec() -> bool {
        true
    }

    open spec fn from_spec(value: StorageError) -> Self {
        DbError::Storage(value)
    }
}

} // verus!
