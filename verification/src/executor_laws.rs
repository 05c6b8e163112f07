//! What running statements means, stated directly over the catalog: where
//! a table is found, which names `CREATE TABLE` gives its columns, when a
//! `SELECT` refuses a column list and which cells it returns.

use crate::command::CommandView;
use crate::database::{key_position, lemma_key_position_found, EntryView};
use crate::executor::{
    column_positions, execute_command_spec, execute_spec, ExecutionErrorView,
    ExecutionResultView,
};
use crate::statement::{ColumnDefinitionView, ProjectionView, StatementView};
use crate::table::{column_position, TableView};
use crate::value::ValueView;
use vstd::prelude::*;

verus! {

/// `name` is one of `columns`.
pub open spec fn is_column(columns: Seq<Seq<char>>, name: Seq<char>) -> bool {
    exists|j: int| 0 <= j < columns.len() && columns[j] == name
}

/// `j` is where `name` first stands among `columns`.
pub open spec fn first_at(columns: Seq<Seq<char>>, name: Seq<char>, j: int) -> bool {
    &&& 0 <= j < columns.len()
    &&& columns[j] == name
    &&& forall|m: int| 0 <= m < j ==> #[trigger] columns[m] != name
}

/// `i` is the entry created under `key`: the first one with that key.
pub open spec fn entry_at(db: Seq<EntryView>, key: Seq<char>, i: int) -> bool {
    &&& 0 <= i < db.len()
    &&& db[i].key == key
    &&& forall|m: int| 0 <= m < i ==> #[trigger] db[m].key != key
}

/// The position of a column is where its name first stands, and there is
/// none for a name that is not a column.
pub proof fn lemma_column_position_first(columns: Seq<Seq<char>>, name: Seq<char>)
    ensures
        column_position(columns, name) matches Some(j) ==> first_at(columns, name, j),
        column_position(columns, name) is None <==> !is_column(columns, name),
    decreases columns.len(),
{
    if columns.len() > 0 {
        let front = columns.drop_last();
        lemma_column_position_first(front, name);
        assert forall|m: int| 0 <= m < front.len() implies front[m] == #[trigger] columns[m] by {}
        if is_column(front, name) {
            let j = choose|j: int| 0 <= j < front.len() && front[j] == name;
            assert(columns[j] == name);
        }
        if is_column(columns, name) && !is_column(front, name) {
            let j = choose|j: int| 0 <= j < columns.len() && columns[j] == name;
            if j < front.len() {
                assert(front[j] == name);
            }
        }
    }
}

/// The positions of a list of names, or the first of them that is not a
/// column.
pub proof fn lemma_column_positions_meaning(columns: Seq<Seq<char>>, names: Seq<Seq<char>>)
    ensures
        column_positions(columns, names) matches Ok(pos) ==> pos.len() == names.len() && (forall|k: int|
            0 <= k < names.len() ==> first_at(columns, #[trigger] names[k], pos[k])),
        column_positions(columns, names) is Ok <==> (forall|k: int|
            0 <= k < names.len() ==> is_column(columns, #[trigger] names[k])),
        forall|k: int|
            0 <= k < names.len() && !is_column(columns, #[trigger] names[k]) && (forall|m: int|
                0 <= m < k ==> is_column(columns, #[trigger] names[m])) ==> column_positions(
                columns,
                names,
            ) == Err::<Seq<int>, Seq<char>>(names[k]),
    decreases names.len(),
{
    if names.len() > 0 {
        let front = names.drop_last();
        let last = names.last();
        lemma_column_positions_meaning(columns, front);
        lemma_column_position_first(columns, last);
        assert forall|m: int| 0 <= m < front.len() implies front[m] == #[trigger] names[m] by {}
        assert(last == names[names.len() - 1]);
        assert forall|k: int|
            0 <= k < names.len() && !is_column(columns, #[trigger] names[k]) && (forall|m: int|
                0 <= m < k ==> is_column(columns, #[trigger] names[m])) implies column_positions(
            columns,
            names,
        ) == Err::<Seq<int>, Seq<char>>(names[k]) by {
            if k < front.len() {
                assert(!is_column(columns, front[k]));
                assert forall|m: int| 0 <= m < k implies is_column(columns, #[trigger] front[m]) by {
                    assert(is_column(columns, names[m]));
                }
            } else {
                assert forall|m: int| 0 <= m < front.len() implies is_column(
                    columns,
                    #[trigger] front[m],
                ) by {
                    assert(is_column(columns, names[m]));
                }
            }
        }
        if column_positions(columns, names) is Ok {
            assert forall|k: int| 0 <= k < names.len() implies is_column(
                columns,
                #[trigger] names[k],
            ) by {
                if k < front.len() {
                    assert(is_column(columns, front[k]));
                }
            }
        }
        if forall|k: int| 0 <= k < names.len() ==> is_column(columns, #[trigger] names[k]) {
            assert forall|k: int| 0 <= k < front.len() implies is_column(
                columns,
                #[trigger] front[k],
            ) by {
                assert(is_column(columns, names[k]));
            }
            assert(is_column(columns, names[names.len() - 1]));
        }
    } else {
        assert(column_positions(columns, names) == Ok::<Seq<int>, Seq<char>>(Seq::empty()));
    }
}

/// The entry found under a key is the first one created under it, and
/// where no entry has the key none is found.
pub proof fn lemma_entry_found(db: Seq<EntryView>, key: Seq<char>)
    ensures
        key_position(db, key) matches Some(i) ==> entry_at(db, key, i),
        (forall|m: int| 0 <= m < db.len() ==> #[trigger] db[m].key != key) ==> key_position(
            db,
            key,
        ) is None,
        forall|i: int| entry_at(db, key, i) ==> key_position(db, key) == Some(i),
    decreases db.len(),
{
    lemma_key_position_found(db, key);
    if db.len() > 0 {
        let front = db.drop_last();
        lemma_entry_found(front, key);
        lemma_key_position_found(front, key);
        assert forall|m: int| 0 <= m < front.len() implies front[m] == #[trigger] db[m] by {}
        if let Some(i) = key_position(db, key) {
            if i < front.len() {
                assert(entry_at(front, key, i));
            } else {
                assert forall|m: int| 0 <= m < i implies #[trigger] db[m].key != key by {
                    assert(front[m].key != key);
                }
            }
        }
        assert forall|i: int| entry_at(db, key, i) implies key_position(db, key) == Some(i) by {
            if i < front.len() {
                assert(entry_at(front, key, i));
            } else {
                assert(db.last() == db[i]);
                assert forall|m: int| 0 <= m < front.len() implies #[trigger] front[m].key != key by {
                    assert(db[m].key != key);
                }
            }
        }
    }
}

/// `CREATE TABLE` adds, at the end and under its own name, an empty table
/// whose columns are the declared names, in the declared order, exactly as
/// written; the tables already there stay as they were. Where a table was
/// already created under that name, it is refused and nothing changes.
pub proof fn lemma_create_table_meaning(
    db: Seq<EntryView>,
    table_name: Seq<char>,
    columns: Seq<ColumnDefinitionView>,
)
    ensures
        ({
            let (result, after) = execute_spec(db, StatementView::CreateTable { table_name, columns });
            &&& (forall|m: int| 0 <= m < db.len() ==> #[trigger] db[m].key != table_name) ==> {
                &&& result == Ok::<ExecutionResultView, ExecutionErrorView>(
                    ExecutionResultView::TableCreated,
                )
                &&& after.len() == db.len() + 1
                &&& forall|m: int| 0 <= m < db.len() ==> #[trigger] after[m] == db[m]
                &&& after[db.len() as int].key == table_name
                &&& after[db.len() as int].table.name == table_name
                &&& after[db.len() as int].table.columns.len() == columns.len()
                &&& forall|k: int|
                    0 <= k < columns.len() ==> #[trigger] after[db.len() as int].table.columns[k]
                        == columns[k].name
                &&& after[db.len() as int].table.rows.len() == 0
            }
            &&& (exists|m: int| 0 <= m < db.len() && #[trigger] db[m].key == table_name) ==> {
                &&& result == Err::<ExecutionResultView, ExecutionErrorView>(
                    ExecutionErrorView::TableAlreadyExists(table_name),
                )
                &&& after == db
            }
        }),
{
    lemma_entry_found(db, table_name);
    lemma_key_position_found(db, table_name);
}

/// A short `create` adds, at the end and under its own name, an empty
/// table whose columns are exactly the listed names, in order; where a
/// table was already created under that name, it is refused and nothing
/// changes.
pub proof fn lemma_create_command_meaning(
    db: Seq<EntryView>,
    table_name: Seq<char>,
    columns: Seq<Seq<char>>,
)
    ensures
        ({
            let (result, after) = execute_command_spec(db, CommandView::Create { table_name, columns });
            &&& (forall|m: int| 0 <= m < db.len() ==> #[trigger] db[m].key != table_name) ==> {
                &&& result == Ok::<ExecutionResultView, ExecutionErrorView>(
                    ExecutionResultView::TableCreated,
                )
                &&& after.len() == db.len() + 1
                &&& forall|m: int| 0 <= m < db.len() ==> #[trigger] after[m] == db[m]
                &&& after[db.len() as int].key == table_name
                &&& after[db.len() as int].table.name == table_name
                &&& after[db.len() as int].table.columns == columns
                &&& after[db.len() as int].table.rows.len() == 0
            }
            &&& (exists|m: int| 0 <= m < db.len() && #[trigger] db[m].key == table_name) ==> {
                &&& result == Err::<ExecutionResultView, ExecutionErrorView>(
                    ExecutionErrorView::TableAlreadyExists(table_name),
                )
                &&& after == db
            }
        }),
{
    lemma_entry_found(db, table_name);
    lemma_key_position_found(db, table_name);
}

/// A `SELECT` with a column list on the table created under `table_name`
/// is refused exactly when some listed name is not a column of that table,
/// whatever rows it holds, and then for the first such name. Otherwise it
/// returns one row for each row of the table, in order, holding for each
/// listed name the cell under the first column of that name. It never
/// changes the catalog.
pub proof fn lemma_select_columns_meaning(
    db: Seq<EntryView>,
    table_name: Seq<char>,
    i: int,
    names: Seq<Seq<char>>,
)
    requires
        entry_at(db, table_name, i),
    ensures
        ({
            let t = db[i].table;
            let (result, after) = execute_spec(
                db,
                StatementView::Select { projection: ProjectionView::Columns(names), table_name },
            );
            &&& after == db
            &&& result is Err <==> exists|k: int|
                0 <= k < names.len() && !is_column(t.columns, #[trigger] names[k])
            &&& forall|k: int|
                0 <= k < names.len() && !is_column(t.columns, #[trigger] names[k]) && (forall|m: int|
                    0 <= m < k ==> is_column(t.columns, #[trigger] names[m])) ==> result == Err::<
                    ExecutionResultView,
                    ExecutionErrorView,
                >(ExecutionErrorView::ColumnNotFound(names[k]))
            &&& result matches Ok(ExecutionResultView::Rows(rows)) ==> {
                &&& rows.len() == t.rows.len()
                &&& forall|r: int| 0 <= r < rows.len() ==> #[trigger] rows[r].len() == names.len()
                &&& forall|r: int, k: int, j: int|
                    0 <= r < rows.len() && 0 <= k < names.len() && first_at(
                        t.columns,
                        names[k],
                        j,
                    ) ==> #[trigger] rows[r][k] == #[trigger] t.rows[r][j]
            }
            &&& result is Ok ==> result matches Ok(ExecutionResultView::Rows(_))
        }),
{
    lemma_entry_found(db, table_name);
    let t = db[i].table;
    lemma_column_positions_meaning(t.columns, names);
    if let Ok(pos) = column_positions(t.columns, names) {
        assert forall|k: int, j: int|
            0 <= k < names.len() && first_at(t.columns, names[k], j) implies pos[k] == j by {
            assert(first_at(t.columns, names[k], pos[k]));
            if pos[k] < j {
                assert(t.columns[pos[k]] != names[k]);
            } else if j < pos[k] {
                assert(t.columns[j] != names[k]);
            }
        }
    } else {
        let k = choose|k: int| 0 <= k < names.len() && !is_column(t.columns, #[trigger] names[k]);
        assert(!is_column(t.columns, names[k]));
    }
}

/// A `SELECT` or an `INSERT` naming no table that was created is refused
/// with that name, and nothing changes.
pub proof fn lemma_missing_table_refused(db: Seq<EntryView>, statement: StatementView)
    requires
        !(statement is CreateTable),
        forall|m: int| 0 <= m < db.len() ==> #[trigger] db[m].key != crate::executor::statement_table(
            statement,
        ),
    ensures
        execute_spec(db, statement) == (
            Err::<ExecutionResultView, ExecutionErrorView>(
                ExecutionErrorView::TableNotFound(crate::executor::statement_table(statement)),
            ),
            db,
        ),
{
    lemma_entry_found(db, crate::executor::statement_table(statement));
}

/// An `INSERT` of as many values as the table has columns adds them as the
/// table's last row and changes nothing else; with any other number of
/// values it is refused with both counts and nothing changes.
pub proof fn lemma_insert_meaning(
    db: Seq<EntryView>,
    table_name: Seq<char>,
    i: int,
    values: Seq<ValueView>,
)
    requires
        entry_at(db, table_name, i),
    ensures
        ({
            let t = db[i].table;
            let (result, after) = execute_spec(db, StatementView::Insert { table_name, values });
            &&& values.len() == t.columns.len() ==> {
                &&& result == Ok::<ExecutionResultView, ExecutionErrorView>(
                    ExecutionResultView::RowInserted,
                )
                &&& after.len() == db.len()
                &&& forall|m: int| 0 <= m < db.len() && m != i ==> #[trigger] after[m] == db[m]
                &&& after[i].key == db[i].key
                &&& after[i].table.name == t.name
                &&& after[i].table.columns == t.columns
                &&& after[i].table.rows.len() == t.rows.len() + 1
                &&& forall|r: int| 0 <= r < t.rows.len() ==> #[trigger] after[i].table.rows[r] == t.rows[r]
                &&& after[i].table.rows[t.rows.len() as int] == values
            }
            &&& values.len() != t.columns.len() ==> {
                &&& result == Err::<ExecutionResultView, ExecutionErrorView>(
                    ExecutionErrorView::WrongValueCount {
                        expected: t.columns.len() as usize,
                        actual: values.len() as usize,
                    },
                )
                &&& after == db
            }
        }),
{
    lemma_entry_found(db, table_name);
}

/// `SELECT *` on the table created under `table_name` returns all its
/// rows, in order, and changes nothing.
pub proof fn lemma_select_all_meaning(db: Seq<EntryView>, table_name: Seq<char>, i: int)
    requires
        entry_at(db, table_name, i),
    ensures
        execute_spec(db, StatementView::Select { projection: ProjectionView::All, table_name }) == (
            Ok::<ExecutionResultView, ExecutionErrorView>(
                ExecutionResultView::Rows(db[i].table.rows),
            ),
            db,
        ),
{
    lemma_entry_found(db, table_name);
}

} // verus!
