//! Columns, rows and tables.

use crate::value::{Value, ValueView};
use vstd::prelude::*;

verus! {

/// Why a row was refused by a table.
#[derive(Debug, PartialEq, Eq)]
pub enum InsertError {
    WrongValueCount { expected: usize, actual: usize },
}

/// A named column.
#[derive(Debug, PartialEq, Eq)]
pub struct Column {
    pub name: String,
}

impl Clone for Column {
    fn clone(&self) -> (r: Self)
        ensures
            r == *self,
    {
        Column { name: self.name.clone() }
    }
}

impl DeepView for Column {
    type V = Seq<char>;

    open spec fn deep_view(&self) -> Seq<char> {
        self.name@
    }
}

impl Column {
    /// A column with the given name.
    pub fn new(name: &str) -> (r: Self)
        ensures
            r.name@ == name@,
    {
        Column { name: name.to_owned() }
    }
}

/// A row: one value per column.
#[derive(Debug, PartialEq, Eq)]
pub struct Row {
    pub values: Vec<Value>,
}

/// Copies a sequence of values one by one.
pub fn clone_values(values: &[Value]) -> (r: Vec<Value>)
    ensures
        r@ == values@,
{
    let mut out: Vec<Value> = Vec::new();
    let mut i: usize = 0;
    while i < values.len()
        invariant
            i <= values@.len(),
            out@ == values@.take(i as int),
        decreases values@.len() - i,
    {
        out.push(values[i].clone());
        assert(values@.take(i + 1) =~= values@.take(i as int).push(values@[i as int]));
        i = i + 1;
    }
    assert(values@.take(values@.len() as int) =~= values@);
    out
}

impl Clone for Row {
    fn clone(&self) -> (r: Self)
        ensures
            r.values@ == self.values@,
    {
        Row { values: clone_values(self.values.as_slice()) }
    }
}

impl DeepView for Row {
    type V = Seq<ValueView>;

    open spec fn deep_view(&self) -> Seq<ValueView> {
        self.values.deep_view()
    }
}

impl Row {
    /// A row holding the given values, in order.
    pub fn new(values: Vec<Value>) -> (r: Self)
        ensures
            r.values == values,
    {
        Row { values }
    }

    /// The values of the row, in order.
    pub fn values(&self) -> (r: &[Value])
        ensures
            r@ == self.values@,
    {
        self.values.as_slice()
    }
}

/// The mathematical value of a table: its name, the names of its columns,
/// and its rows, each a sequence of cell values.
pub struct TableView {
    pub name: Seq<char>,
    pub columns: Seq<Seq<char>>,
    pub rows: Seq<Seq<ValueView>>,
}

/// Every row has exactly one value per column.
pub open spec fn rows_fit(columns: Seq<Seq<char>>, rows: Seq<Seq<ValueView>>) -> bool {
    forall|i: int| 0 <= i < rows.len() ==> #[trigger] rows[i].len() == columns.len()
}

/// The position of the first column called `name`, if any.
pub open spec fn column_position(columns: Seq<Seq<char>>, name: Seq<char>) -> Option<int>
    decreases columns.len(),
{
    if columns.len() == 0 {
        None
    } else {
        match column_position(columns.drop_last(), name) {
            Some(i) => Some(i),
            None => if columns.last() == name {
                Some(columns.len() - 1)
            } else {
                None
            },
        }
    }
}

/// A named table with its columns and rows.
#[derive(Debug, PartialEq, Eq)]
pub struct Table {
    name: String,
    columns: Vec<Column>,
    rows: Vec<Row>,
}

impl View for Table {
    type V = TableView;

    closed spec fn view(&self) -> TableView {
        TableView {
            name: self.name@,
            columns: self.columns.deep_view(),
            rows: self.rows.deep_view(),
        }
    }
}

impl DeepView for Table {
    type V = TableView;

    open spec fn deep_view(&self) -> TableView {
        self@
    }
}

impl Clone for Table {
    fn clone(&self) -> (r: Self)
        ensures
            r@ == self@,
    {
        proof {
            use_type_invariant(self);
        }
        let mut columns: Vec<Column> = Vec::new();
        let mut i: usize = 0;
        while i < self.columns.len()
            invariant
                i <= self.columns@.len(),
                columns@ == self.columns@.take(i as int),
            decreases self.columns@.len() - i,
        {
            columns.push(self.columns[i].clone());
            assert(columns@ =~= self.columns@.take(i + 1));
            i = i + 1;
        }
        assert(columns@ =~= self.columns@);
        let mut rows: Vec<Row> = Vec::new();
        let mut k: usize = 0;
        while k < self.rows.len()
            invariant
                k <= self.rows@.len(),
                rows@.len() == k,
                forall|j: int| 0 <= j < k ==> #[trigger] rows@[j].values@ == self.rows@[j].values@,
            decreases self.rows@.len() - k,
        {
            rows.push(self.rows[k].clone());
            k = k + 1;
        }
        let r = Table { name: self.name.clone(), columns, rows };
        assert(r.rows.deep_view() =~= self.rows.deep_view()) by {
            assert forall|j: int| 0 <= j < r.rows@.len() implies r.rows@[j].deep_view()
                == self.rows@[j].deep_view() by {
                assert(r.rows@[j].values@ == self.rows@[j].values@);
            }
        }
        r
    }
}

impl Table {
    /// Every row of a table has exactly one value per column.
    #[verifier::type_invariant]
    spec fn rows_match_columns(self) -> bool {
        forall|i: int| 0 <= i < self.rows@.len() ==> #[trigger] self.rows@[i].values@.len() == self.columns@.len()
    }

    /// An empty table with the given name and columns.
    pub fn new(name: &str, columns: Vec<Column>) -> (r: Self)
        ensures
            r@ == (TableView { name: name@, columns: columns.deep_view(), rows: Seq::empty() }),
    {
        let r = Table { name: name.to_owned(), columns, rows: Vec::new() };
        assert(r@.rows =~= Seq::<Seq<ValueView>>::empty());
        r
    }

    /// The table's name.
    pub fn name(&self) -> (r: &str)
        ensures
            r@ == self@.name,
    {
        self.name.as_str()
    }

    /// The table's columns, in order.
    pub fn columns(&self) -> (r: &[Column])
        ensures
            r.deep_view() == self@.columns,
    {
        self.columns.as_slice()
    }

    /// The table's rows, in the order they were inserted.
    pub fn rows(&self) -> (r: &[Row])
        ensures
            r.deep_view() == self@.rows,
            rows_fit(self@.columns, self@.rows),
    {
        proof {
            use_type_invariant(self);
            assert forall|i: int| 0 <= i < self@.rows.len() implies #[trigger] self@.rows[i].len()
                == self@.columns.len() by {
                assert(self@.rows[i] == self.rows@[i].values.deep_view());
            }
        }
        self.rows.as_slice()
    }

    /// The number of rows.
    pub fn row_count(&self) -> (r: usize)
        ensures
            r == self@.rows.len(),
    {
        self.rows.len()
    }

    /// The position of the first column called `name`.
    pub fn column_index(&self, name: &str) -> (r: Option<usize>)
        ensures
            r matches Some(i) ==> column_position(self@.columns, name@) == Some(i as int) && i
                < self@.columns.len() && self@.columns[i as int] == name@,
            r is None ==> column_position(self@.columns, name@) is None,
    {
        let wanted = name.to_owned();
        let mut i: usize = 0;
        while i < self.columns.len()
            invariant
                wanted@ == name@,
                i <= self.columns@.len(),
                column_position(self@.columns.take(i as int), name@) is None,
            decreases self.columns@.len() - i,
        {
            let ghost cols = self@.columns;
            assert(cols.take(i + 1).drop_last() =~= cols.take(i as int));
            if self.columns[i].name == wanted {
                proof {
                    lemma_column_position_prefix(cols, i + 1, name@);
                }
                return Some(i);
            }
            i = i + 1;
        }
        assert(self@.columns.take(i as int) =~= self@.columns);
        None
    }

    /// Appends `row` when it has one value per column; otherwise leaves the
    /// table as it was and reports the expected and the actual count.
    pub fn insert(&mut self, row: Row) -> (r: Result<(), InsertError>)
        ensures
            final(self)@.name == old(self)@.name,
            final(self)@.columns == old(self)@.columns,
            row.values@.len() == old(self)@.columns.len() ==> r is Ok && final(self)@.rows
                == old(self)@.rows.push(row.deep_view()),
            row.values@.len() != old(self)@.columns.len() ==> (r matches Err(
                InsertError::WrongValueCount { expected, actual },
            ) && expected == old(self)@.columns.len() && actual == row.values@.len())
                && final(self)@ == old(self)@,
    {
        if row.values.len() != self.columns.len() {
            return Err(
                InsertError::WrongValueCount {
                    expected: self.columns.len(),
                    actual: row.values.len(),
                },
            );
        }
        proof {
            use_type_invariant(&*self);
        }
        let mut rows: Vec<Row> = Vec::new();
        std::mem::swap(&mut rows, &mut self.rows);
        rows.push(row);
        self.rows = rows;
        assert(self@.rows =~= old(self)@.rows.push(row.deep_view()));
        Ok(())
    }
}

/// Once the first `k` columns hold a match, the position of the first match
/// is the same in any longer prefix.
pub proof fn lemma_column_position_prefix(columns: Seq<Seq<char>>, k: int, name: Seq<char>)
    requires
        0 < k <= columns.len(),
        column_position(columns.take(k - 1), name) is None,
        columns[k - 1] == name,
    ensures
        column_position(columns, name) == Some(k - 1),
    decreases columns.len() - k,
{
    assert(columns.take(k).drop_last() =~= columns.take(k - 1));
    assert(column_position(columns.take(k), name) == Some(k - 1));
    if k < columns.len() {
        lemma_column_position_extend(columns, k, name);
    } else {
        assert(columns.take(k) =~= columns);
    }
}

/// A match found in a prefix stays the first match of the whole sequence.
pub proof fn lemma_column_position_extend(columns: Seq<Seq<char>>, k: int, name: Seq<char>)
    requires
        0 <= k <= columns.len(),
        column_position(columns.take(k), name) is Some,
    ensures
        column_position(columns, name) == column_position(columns.take(k), name),
    decreases columns.len() - k,
{
    if k < columns.len() {
        assert(columns.take(k + 1).drop_last() =~= columns.take(k));
        lemma_column_position_extend(columns, k + 1, name);
    } else {
        assert(columns.take(k) =~= columns);
    }
}

} // verus!
