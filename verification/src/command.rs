//! The shell's short commands: `create NAME COLUMN...`, `insert NAME
//! VALUE...` and `select NAME`.

use crate::value::{Value, ValueView};
use vstd::prelude::*;

verus! {

/// A command of the interactive shell.
#[derive(Debug, PartialEq, Eq)]
pub enum Command {
    Create { table_name: String, columns: Vec<String> },
    Insert { table_name: String, values: Vec<Value> },
    Select { table_name: String },
}

/// The mathematical value of a command.
pub enum CommandView {
    Create { table_name: Seq<char>, columns: Seq<Seq<char>> },
    Insert { table_name: Seq<char>, values: Seq<ValueView> },
    Select { table_name: Seq<char> },
}

impl View for Command {
    type V = CommandView;

    open spec fn view(&self) -> CommandView {
        match self {
            Command::Create { table_name, columns } => CommandView::Create {
                table_name: table_name@,
                columns: columns.deep_view(),
            },
            Command::Insert { table_name, values } => CommandView::Insert {
                table_name: table_name@,
                values: values.deep_view(),
            },
            Command::Select { table_name } => CommandView::Select { table_name: table_name@ },
        }
    }
}

} // verus!
