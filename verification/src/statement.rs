//! Parsed SQL statements.

use crate::value::{Value, ValueView};
use vstd::prelude::*;

verus! {

/// The declared type of a column.
#[derive(Debug, Clone, PartialEq, Eq)]
pub enum ColumnType {
    Integer,
    Text,
}

/// A column declared by `CREATE TABLE`.
#[derive(Debug, Clone, PartialEq, Eq)]
pub struct ColumnDefinition {
    pub name: String,
    pub column_type: ColumnType,
}

/// The mathematical value of a column declaration.
pub struct ColumnDefinitionView {
    pub name: Seq<char>,
    pub column_type: ColumnType,
}

impl View for ColumnDefinition {
    type V = ColumnDefinitionView;

    open spec fn view(&self) -> ColumnDefinitionView {
        ColumnDefinitionView { name: self.name@, column_type: self.column_type }
    }
}

impl DeepView for ColumnDefinition {
    type V = ColumnDefinitionView;

    open spec fn deep_view(&self) -> ColumnDefinitionView {
        self@
    }
}

/// A statement of the SQL dialect.
#[derive(Debug, Clone, PartialEq, Eq)]
pub enum Statement {
    CreateTable { table_name: String, columns: Vec<ColumnDefinition> },
    Insert { table_name: String, values: Vec<Value> },
    Select { projection: Projection, table_name: String },
}

/// What a `SELECT` returns of each row.
#[derive(Debug, Clone, PartialEq, Eq)]
pub enum Projection {
    All,
    Columns(Vec<String>),
}

/// The mathematical value of a projection.
pub enum ProjectionView {
    All,
    Columns(Seq<Seq<char>>),
}

/// The mathematical value of a statement.
pub enum StatementView {
    CreateTable { table_name: Seq<char>, columns: Seq<ColumnDefinitionView> },
    Insert { table_name: Seq<char>, values: Seq<ValueView> },
    Select { projection: ProjectionView, table_name: Seq<char> },
}

impl View for Projection {
    type V = ProjectionView;

    open spec fn view(&self) -> ProjectionView {
        match self {
            Projection::All => ProjectionView::All,
            Projection::Columns(names) => ProjectionView::Columns(names.deep_view()),
        }
    }
}

impl View for Statement {
    type V = StatementView;

    open spec fn view(&self) -> StatementView {
        match self {
            Statement::CreateTable { table_name, columns } => StatementView::CreateTable {
                table_name: table_name@,
                columns: columns.deep_view(),
            },
            Statement::Insert { table_name, values } => StatementView::Insert {
                table_name: table_name@,
                values: values.deep_view(),
            },
            Statement::Select { projection, table_name } => StatementView::Select {
                projection: projection@,
                table_name: table_name@,
            },
        }
    }
}

} // verus!
