//! Runs statements against a database.

use crate::database::{
    keys_are_names, key_position, lemma_added_entry_is_found, lemma_key_position_found,
    lemma_same_keys_same_position, CreateTableError, Database, EntryView,
};
use crate::command::{Command, CommandView};
use crate::statement::{ColumnDefinitionView, Projection, ProjectionView, Statement, StatementView};
use crate::table::{column_position, rows_fit, Column, InsertError, Row, Table, TableView};
use crate::value::{Value, ValueView};
use vstd::prelude::*;

verus! {

/// What a statement produced.
#[derive(Debug, Clone, PartialEq, Eq)]
pub enum ExecutionResult {
    TableCreated,
    RowInserted,
    Rows(Vec<Row>),
}

/// Why a statement failed.
#[derive(Debug, PartialEq, Eq)]
pub enum ExecutionError {
    TableNotFound(String),
    ColumnNotFound(String),
    TableAlreadyExists(String),
    WrongValueCount { expected: usize, actual: usize },
}

/// The mathematical value of an execution result.
pub enum ExecutionResultView {
    TableCreated,
    RowInserted,
    Rows(Seq<Seq<ValueView>>),
}

/// The mathematical value of an execution error.
pub enum ExecutionErrorView {
    TableNotFound(Seq<char>),
    ColumnNotFound(Seq<char>),
    TableAlreadyExists(Seq<char>),
    WrongValueCount { expected: usize, actual: usize },
}

impl View for ExecutionResult {
    type V = ExecutionResultView;

    open spec fn view(&self) -> ExecutionResultView {
        match self {
            ExecutionResult::TableCreated => ExecutionResultView::TableCreated,
            ExecutionResult::RowInserted => ExecutionResultView::RowInserted,
            ExecutionResult::Rows(rows) => ExecutionResultView::Rows(rows.deep_view()),
        }
    }
}

impl View for ExecutionError {
    type V = ExecutionErrorView;

    open spec fn view(&self) -> ExecutionErrorView {
        match self {
            ExecutionError::TableNotFound(n) => ExecutionErrorView::TableNotFound(n@),
            ExecutionError::ColumnNotFound(n) => ExecutionErrorView::ColumnNotFound(n@),
            ExecutionError::TableAlreadyExists(n) => ExecutionErrorView::TableAlreadyExists(n@),
            ExecutionError::WrongValueCount { expected, actual } => {
                ExecutionErrorView::WrongValueCount { expected: *expected, actual: *actual }
            },
        }
    }
}

impl From<CreateTableError> for ExecutionError {
    fn from(value: CreateTableError) -> (r: Self) {
        match value {
            CreateTableError::AlreadyExists(name) => ExecutionError::TableAlreadyExists(name),
        }
    }
}

impl vstd::std_specs::convert::FromSpecImpl<CreateTableError> for ExecutionError {
    open spec fn obeys_from_spec() -> bool {
        true
    }

    open spec fn from_spec(value: CreateTableError) -> Self {
        match value {
            CreateTableError::AlreadyExists(name) => ExecutionError::TableAlreadyExists(name),
        }
    }
}

impl From<InsertError> for ExecutionError {
    fn from(value: InsertError) -> (r: Self) {
        match value {
            InsertError::WrongValueCount { expected, actual } => {
                ExecutionError::WrongValueCount { expected, actual }
            },
        }
    }
}

impl vstd::std_specs::convert::FromSpecImpl<InsertError> for ExecutionError {
    open spec fn obeys_from_spec() -> bool {
        true
    }

    open spec fn from_spec(value: InsertError) -> Self {
        match value {
            InsertError::WrongValueCount { expected, actual } => {
                ExecutionError::WrongValueCount { expected, actual }
            },
        }
    }
}

/// The empty table that `CREATE TABLE` declares.
pub open spec fn declared_table(name: Seq<char>, columns: Seq<ColumnDefinitionView>) -> TableView {
    TableView {
        name,
        columns: columns.map_values(|c: ColumnDefinitionView| c.name),
        rows: Seq::empty(),
    }
}

/// The positions of the named columns, in order, or the first name that
/// is not a column.
pub open spec fn column_positions(columns: Seq<Seq<char>>, names: Seq<Seq<char>>) -> Result<
    Seq<int>,
    Seq<char>,
>
    decreases names.len(),
{
    if names.len() == 0 {
        Ok(Seq::empty())
    } else {
        match column_positions(columns, names.drop_last()) {
            Err(n) => Err(n),
            Ok(found) => match column_position(columns, names.last()) {
                None => Err(names.last()),
                Some(i) => Ok(found.push(i)),
            },
        }
    }
}

/// A row cut down to the cells at `positions`, in that order.
pub open spec fn project_row(row: Seq<ValueView>, positions: Seq<int>) -> Seq<ValueView> {
    positions.map_values(|k: int| row[k])
}

/// What `SELECT` returns of a table.
pub open spec fn select_spec(table: TableView, projection: ProjectionView) -> Result<
    Seq<Seq<ValueView>>,
    ExecutionErrorView,
> {
    match projection {
        ProjectionView::All => Ok(table.rows),
        ProjectionView::Columns(names) => match column_positions(table.columns, names) {
            Err(n) => Err(ExecutionErrorView::ColumnNotFound(n)),
            Ok(positions) => Ok(
                table.rows.map_values(|row: Seq<ValueView>| project_row(row, positions)),
            ),
        },
    }
}

/// The outcome of running a statement on the catalog `db`: the result
/// and the catalog afterwards. Tables are found by the name they were
/// created under.
pub open spec fn execute_spec(db: Seq<EntryView>, statement: StatementView) -> (
    Result<ExecutionResultView, ExecutionErrorView>,
    Seq<EntryView>,
) {
    match statement {
        StatementView::CreateTable { table_name, columns } => match key_position(db, table_name) {
            Some(_) => (Err(ExecutionErrorView::TableAlreadyExists(table_name)), db),
            None => (
                Ok(ExecutionResultView::TableCreated),
                db.push(EntryView { key: table_name, table: declared_table(table_name, columns) }),
            ),
        },
        StatementView::Insert { table_name, values } => match key_position(db, table_name) {
            None => (Err(ExecutionErrorView::TableNotFound(table_name)), db),
            Some(i) => {
                let t = db[i].table;
                if values.len() == t.columns.len() {
                    (
                        Ok(ExecutionResultView::RowInserted),
                        db.update(
                            i,
                            EntryView {
                                key: db[i].key,
                                table: TableView { rows: t.rows.push(values), ..t },
                            },
                        ),
                    )
                } else {
                    (
                        Err(
                            ExecutionErrorView::WrongValueCount {
                                expected: t.columns.len() as usize,
                                actual: values.len() as usize,
                            },
                        ),
                        db,
                    )
                }
            },
        },
        StatementView::Select { projection, table_name } => match key_position(db, table_name) {
            None => (Err(ExecutionErrorView::TableNotFound(table_name)), db),
            Some(i) => match select_spec(db[i].table, projection) {
                Ok(rows) => (Ok(ExecutionResultView::Rows(rows)), db),
                Err(e) => (Err(e), db),
            },
        },
    }
}

/// The outcome of running a short command of the shell on the catalog
/// `db`: `create` declares a table with the named columns, `insert` is an
/// `INSERT` and `select` is a `SELECT *`.
pub open spec fn execute_command_spec(db: Seq<EntryView>, command: CommandView) -> (
    Result<ExecutionResultView, ExecutionErrorView>,
    Seq<EntryView>,
) {
    match command {
        CommandView::Create { table_name, columns } => match key_position(db, table_name) {
            Some(_) => (Err(ExecutionErrorView::TableAlreadyExists(table_name)), db),
            None => (
                Ok(ExecutionResultView::TableCreated),
                db.push(
                    EntryView {
                        key: table_name,
                        table: TableView { name: table_name, columns, rows: Seq::empty() },
                    },
                ),
            ),
        },
        CommandView::Insert { table_name, values } => execute_spec(
            db,
            StatementView::Insert { table_name, values },
        ),
        CommandView::Select { table_name } => execute_spec(
            db,
            StatementView::Select { projection: ProjectionView::All, table_name },
        ),
    }
}

/// The view of an execution result.
pub open spec fn execution_view(r: Result<ExecutionResult, ExecutionError>) -> Result<
    ExecutionResultView,
    ExecutionErrorView,
> {
    match r {
        Ok(v) => Ok(v@),
        Err(e) => Err(e@),
    }
}

/// Runs `statement` on `database`.
pub fn execute(database: &mut Database, statement: Statement) -> (r: Result<
    ExecutionResult,
    ExecutionError,
>)
    ensures
        (execution_view(r), final(database)@) == execute_spec(old(database)@, statement@),
        keys_are_names(old(database)@) ==> keys_are_names(final(database)@),
{
    proof {
        lemma_execute_keeps_keys_are_names(old(database)@, statement@);
    }
    match statement {
        Statement::CreateTable { table_name, columns } => {
            let mut cols: Vec<Column> = Vec::new();
            let mut i: usize = 0;
            while i < columns.len()
                invariant
                    i <= columns@.len(),
                    cols.deep_view() == columns.deep_view().take(i as int).map_values(
                        |c: ColumnDefinitionView| c.name,
                    ),
                decreases columns@.len() - i,
            {
                let ghost before = cols.deep_view();
                let c = Column { name: columns[i].name.clone() };
                assert(c.deep_view() == columns.deep_view()[i as int].name);
                cols.push(c);
                assert(cols.deep_view() =~= before.push(columns.deep_view()[i as int].name));
                assert(cols.deep_view() =~= columns.deep_view().take(i + 1).map_values(
                    |c: ColumnDefinitionView| c.name,
                ));
                i = i + 1;
            }
            assert(columns.deep_view().take(columns@.len() as int) =~= columns.deep_view());
            let table = Table::new(table_name.as_str(), cols);
            assert(table@ == declared_table(table_name@, columns.deep_view()));
            match database.create_table(table) {
                Ok(()) => {
                    assert(key_position(old(database)@, table_name@) is None);
                    Ok(ExecutionResult::TableCreated)
                },
                Err(e) => {
                    let r = ExecutionError::from(e);
                    assert(r@ == ExecutionErrorView::TableAlreadyExists(table_name@));
                    Err(r)
                },
            }
        },
        Statement::Insert { table_name, values } => insert_row(database, table_name, values),
        Statement::Select { table_name, projection } => {
            match database.table(table_name.as_str()) {
                None => Err(ExecutionError::TableNotFound(table_name.clone())),
                Some(table) => select_rows(table, projection),
            }
        },
    }
}

/// Runs a short command of the shell on `database`.
pub fn execute_command(database: &mut Database, command: Command) -> (r: Result<
    ExecutionResult,
    ExecutionError,
>)
    ensures
        (execution_view(r), final(database)@) == execute_command_spec(old(database)@, command@),
        keys_are_names(old(database)@) ==> keys_are_names(final(database)@),
{
    proof {
        lemma_command_keeps_keys_are_names(old(database)@, command@);
    }
    match command {
        Command::Create { table_name, columns } => {
            let mut cols: Vec<Column> = Vec::new();
            let mut i: usize = 0;
            while i < columns.len()
                invariant
                    i <= columns@.len(),
                    cols.deep_view() == columns.deep_view().take(i as int),
                decreases columns@.len() - i,
            {
                let ghost before = cols.deep_view();
                let c = Column { name: columns[i].clone() };
                assert(c.deep_view() == columns.deep_view()[i as int]);
                cols.push(c);
                assert(cols.deep_view() =~= before.push(columns.deep_view()[i as int]));
                assert(cols.deep_view() =~= columns.deep_view().take(i + 1));
                i = i + 1;
            }
            assert(columns.deep_view().take(columns@.len() as int) =~= columns.deep_view());
            let table = Table::new(table_name.as_str(), cols);
            match database.create_table(table) {
                Ok(()) => Ok(ExecutionResult::TableCreated),
                Err(e) => Err(ExecutionError::from(e)),
            }
        },
        Command::Insert { table_name, values } => insert_row(database, table_name, values),
        Command::Select { table_name } => {
            match database.table(table_name.as_str()) {
                None => Err(ExecutionError::TableNotFound(table_name.clone())),
                Some(table) => select_rows(table, Projection::All),
            }
        },
    }
}

/// Runs an `INSERT` of `values` into the table called `table_name`.
fn insert_row(database: &mut Database, table_name: String, values: Vec<Value>) -> (r: Result<
    ExecutionResult,
    ExecutionError,
>)
    ensures
        (execution_view(r), final(database)@) == execute_spec(
            old(database)@,
            StatementView::Insert { table_name: table_name@, values: values.deep_view() },
        ),
{
    let ghost vals = values.deep_view();
    let ghost pos = key_position(old(database)@, table_name@);
    let r = match database.table_mut(table_name.as_str()) {
        None => Err(ExecutionError::TableNotFound(table_name)),
        Some(table) => {
            match table.insert(Row::new(values)) {
                Ok(()) => Ok(ExecutionResult::RowInserted),
                Err(e) => Err(ExecutionError::from(e)),
            }
        },
    };
    proof {
        lemma_key_position_found(old(database)@, table_name@);
        if let Some(i) = pos {
            let t = old(database)@[i].table;
            let e = EntryView { key: old(database)@[i].key, table: TableView { rows: t.rows.push(vals), ..t } };
            if vals.len() == t.columns.len() {
                assert(r is Ok);
                assert(database@[i] == e);
                assert(database@ =~= old(database)@.update(i, e));
            } else {
                assert(r is Err);
                assert(database@ == old(database)@);
            }
        }
    }
    r
}

/// Runs a `SELECT` with `projection` on `table`.
fn select_rows(table: &Table, projection: Projection) -> (r: Result<
    ExecutionResult,
    ExecutionError,
>)
    ensures
        execution_view(r) == match select_spec(table@, projection@) {
            Ok(rows) => Ok(ExecutionResultView::Rows(rows)),
            Err(e) => Err(e),
        },
{
    let rows = table.rows();
    let ghost proj = projection@;
    match projection {
        Projection::All => {
            let mut out: Vec<Row> = Vec::new();
            let mut i: usize = 0;
            while i < rows.len()
                invariant
                    i <= rows@.len(),
                    rows.deep_view() == table@.rows,
                    out.deep_view() == table@.rows.take(i as int),
                decreases rows@.len() - i,
            {
                let row = rows[i].clone();
                assert(row.deep_view() =~= rows@[i as int].deep_view());
                assert(rows@[i as int].deep_view() == table@.rows[i as int]);
                let ghost before = out.deep_view();
                out.push(row);
                assert(out.deep_view() =~= before.push(table@.rows[i as int]));
                assert(out.deep_view() =~= table@.rows.take(i + 1));
                i = i + 1;
            }
            assert(table@.rows.take(rows@.len() as int) =~= table@.rows);
            Ok(ExecutionResult::Rows(out))
        },
        Projection::Columns(names) => {
            let ghost columns = table@.columns;
            let mut indices: Vec<usize> = Vec::new();
            let mut k: usize = 0;
            assert(names.deep_view().take(0) =~= Seq::<Seq<char>>::empty());
            assert(indices@.map_values(|x: usize| x as int) =~= Seq::<int>::empty());
            while k < names.len()
                invariant
                    k <= names@.len(),
                    proj == ProjectionView::Columns(names.deep_view()),
                    proj == projection@,
                    columns == table@.columns,
                    column_positions(columns, names.deep_view().take(k as int)) == Ok::<
                        Seq<int>,
                        Seq<char>,
                    >(indices@.map_values(|x: usize| x as int)),
                    forall|m: int| 0 <= m < indices@.len() ==> #[trigger] indices@[m] < columns.len(),
                decreases names@.len() - k,
            {
                let ghost prefix = names.deep_view().take(k + 1);
                assert(prefix.drop_last() =~= names.deep_view().take(k as int));
                assert(prefix.last() == names@[k as int]@);
                match table.column_index(names[k].as_str()) {
                    None => {
                        proof {
                            assert(column_positions(columns, prefix) == Err::<Seq<int>, Seq<char>>(
                                prefix.last(),
                            ));
                            lemma_column_positions_extend(columns, names.deep_view(), k as int + 1);
                        }
                        return Err(ExecutionError::ColumnNotFound(names[k].clone()));
                    },
                    Some(index) => {
                        indices.push(index);
                        assert(indices@.map_values(|x: usize| x as int) =~= column_positions(
                            columns,
                            names.deep_view().take(k as int),
                        )->Ok_0.push(index as int));
                    },
                }
                k = k + 1;
            }
            assert(names.deep_view().take(names@.len() as int) =~= names.deep_view());
            let ghost positions = indices@.map_values(|x: usize| x as int);
            let mut out: Vec<Row> = Vec::new();
            let mut i: usize = 0;
            while i < rows.len()
                invariant
                    i <= rows@.len(),
                    rows.deep_view() == table@.rows,
                    rows_fit(columns, table@.rows),
                    columns == table@.columns,
                    positions == indices@.map_values(|x: usize| x as int),
                    forall|m: int| 0 <= m < indices@.len() ==> #[trigger] indices@[m] < columns.len(),
                    out.deep_view() == table@.rows.take(i as int).map_values(
                        |row: Seq<ValueView>| project_row(row, positions),
                    ),
                decreases rows@.len() - i,
            {
                let values = rows[i].values();
                assert(values.deep_view() == table@.rows[i as int]);
                let mut picked: Vec<Value> = Vec::new();
                let mut m: usize = 0;
                while m < indices.len()
                    invariant
                        m <= indices@.len(),
                        values.deep_view() == table@.rows[i as int],
                        values@.len() == columns.len(),
                        positions == indices@.map_values(|x: usize| x as int),
                        forall|n: int| 0 <= n < indices@.len() ==> #[trigger] indices@[n] < columns.len(),
                        picked.deep_view() == project_row(table@.rows[i as int], positions).take(
                            m as int,
                        ),
                    decreases indices@.len() - m,
                {
                    let v = values[indices[m]].clone();
                    assert(positions[m as int] == indices@[m as int] as int);
                    assert(v@ == values.deep_view()[indices@[m as int] as int]);
                    let ghost before = picked.deep_view();
                    picked.push(v);
                    assert(picked.deep_view() =~= before.push(v@));
                    assert(picked.deep_view() =~= project_row(table@.rows[i as int], positions).take(
                        m + 1,
                    ));
                    m = m + 1;
                }
                assert(project_row(table@.rows[i as int], positions).take(indices@.len() as int)
                    =~= project_row(table@.rows[i as int], positions));
                let ghost before = out.deep_view();
                let ghost pv = picked.deep_view();
                out.push(Row::new(picked));
                assert(out.deep_view() =~= before.push(pv));
                assert(out.deep_view() =~= table@.rows.take(i + 1).map_values(
                    |row: Seq<ValueView>| project_row(row, positions),
                ));
                i = i + 1;
            }
            assert(table@.rows.take(rows@.len() as int) =~= table@.rows);
            Ok(ExecutionResult::Rows(out))
        },
    }
}

/// A statement that fails leaves the tables as they were.
pub proof fn lemma_refused_statement_changes_nothing(db: Seq<EntryView>, statement: StatementView)
    requires
        execute_spec(db, statement).0 is Err,
    ensures
        execute_spec(db, statement).1 == db,
{
}

/// Every statement keeps each table under its own name.
pub proof fn lemma_execute_keeps_keys_are_names(db: Seq<EntryView>, statement: StatementView)
    ensures
        keys_are_names(db) ==> keys_are_names(execute_spec(db, statement).1),
{
    lemma_key_position_found(db, statement_table(statement));
    let after = execute_spec(db, statement).1;
    if keys_are_names(db) {
        assert forall|i: int| 0 <= i < after.len() implies #[trigger] after[i].key
            == after[i].table.name by {
            if i < db.len() {
                assert(db[i].key == db[i].table.name);
            }
        }
    }
}

/// Every short command keeps each table under its own name.
pub proof fn lemma_command_keeps_keys_are_names(db: Seq<EntryView>, command: CommandView)
    ensures
        keys_are_names(db) ==> keys_are_names(execute_command_spec(db, command).1),
{
    match command {
        CommandView::Create { table_name, columns } => {
            let after = execute_command_spec(db, command).1;
            if keys_are_names(db) {
                assert forall|i: int| 0 <= i < after.len() implies #[trigger] after[i].key
                    == after[i].table.name by {
                    if i < db.len() {
                        assert(db[i].key == db[i].table.name);
                    }
                }
            }
        },
        CommandView::Insert { table_name, values } => {
            lemma_execute_keeps_keys_are_names(db, StatementView::Insert { table_name, values });
        },
        CommandView::Select { table_name } => {},
    }
}

/// The name of the table a statement works on.
pub open spec fn statement_table(statement: StatementView) -> Seq<char> {
    match statement {
        StatementView::CreateTable { table_name, .. } => table_name,
        StatementView::Insert { table_name, .. } => table_name,
        StatementView::Select { table_name, .. } => table_name,
    }
}

/// A new table holds no rows: selecting everything from it right after it
/// is created gives nothing.
pub proof fn lemma_create_then_select_all(
    db: Seq<EntryView>,
    table_name: Seq<char>,
    columns: Seq<ColumnDefinitionView>,
)
    requires
        key_position(db, table_name) is None,
    ensures
        ({
            let created = execute_spec(
                db,
                StatementView::CreateTable { table_name, columns },
            );
            &&& created.0 == Ok::<ExecutionResultView, ExecutionErrorView>(ExecutionResultView::TableCreated)
            &&& execute_spec(
                created.1,
                StatementView::Select { projection: ProjectionView::All, table_name },
            ).0 == Ok::<ExecutionResultView, ExecutionErrorView>(ExecutionResultView::Rows(Seq::empty()))
        }),
{
    lemma_added_entry_is_found(
        db,
        EntryView { key: table_name, table: declared_table(table_name, columns) },
    );
}

/// A row inserted into a table is returned, after the rows already there,
/// when everything is selected from that table.
pub proof fn lemma_insert_then_select_all(
    db: Seq<EntryView>,
    table_name: Seq<char>,
    values: Seq<ValueView>,
)
    requires
        key_position(db, table_name) matches Some(i) && values.len() == db[i].table.columns.len(),
    ensures
        ({
            let i = key_position(db, table_name)->0;
            let inserted = execute_spec(db, StatementView::Insert { table_name, values });
            &&& inserted.0 == Ok::<ExecutionResultView, ExecutionErrorView>(ExecutionResultView::RowInserted)
            &&& execute_spec(
                inserted.1,
                StatementView::Select { projection: ProjectionView::All, table_name },
            ).0 == Ok::<ExecutionResultView, ExecutionErrorView>(
                ExecutionResultView::Rows(db[i].table.rows.push(values)),
            )
        }),
{
    lemma_key_position_found(db, table_name);
    let after = execute_spec(db, StatementView::Insert { table_name, values }).1;
    lemma_same_keys_same_position(db, after, table_name);
}

/// A name missing from the columns makes every longer list of names fail
/// with the first missing name.
pub proof fn lemma_column_positions_extend(columns: Seq<Seq<char>>, names: Seq<Seq<char>>, k: int)
    requires
        0 <= k <= names.len(),
        column_positions(columns, names.take(k)) is Err,
    ensures
        column_positions(columns, names) == column_positions(columns, names.take(k)),
    decreases names.len() - k,
{
    if k < names.len() {
        assert(names.take(k + 1).drop_last() =~= names.take(k));
        lemma_column_positions_extend(columns, names, k + 1);
    } else {
        assert(names.take(k) =~= names);
    }
}

} // verus!
