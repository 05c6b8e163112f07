use vstd::prelude::*;

pub mod text;
pub mod truncation;
pub mod command;
pub mod database;
pub mod error;
pub mod executor;
pub mod executor_laws;
pub mod lexer;
pub mod lexer_laws;
pub mod parser;
pub mod parser_laws;
pub mod session;
pub mod statement;
pub mod storage;
pub mod storage_laws;
pub mod table;
pub mod value;

verus! {

/// The library's name.
pub fn greeting() -> (name: &'static str)
    ensures
        name@ == "dblite"@,
{
    "dblite"
}

} // verus!
