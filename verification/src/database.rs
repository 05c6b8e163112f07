//! The catalog of tables.

use crate::table::{rows_fit, Table, TableView};
use vstd::prelude::*;

verus! {

/// Why a table could not be added to the catalog.
#[derive(Debug, PartialEq, Eq)]
pub enum CreateTableError {
    AlreadyExists(String),
}

/// The position of the first table called `name`, if any.
pub open spec fn table_position(tables: Seq<TableView>, name: Seq<char>) -> Option<int>
    decreases tables.len(),
{
    if tables.len() == 0 {
        None
    } else {
        match table_position(tables.drop_last(), name) {
            Some(i) => Some(i),
            None => if tables.last().name == name {
                Some(tables.len() - 1)
            } else {
                None
            },
        }
    }
}

/// No two tables share a name.
pub open spec fn names_distinct(tables: Seq<TableView>) -> bool {
    forall|i: int, j: int|
        0 <= i < tables.len() && 0 <= j < tables.len() && i != j ==> #[trigger] tables[i].name
            != #[trigger] tables[j].name
}

/// Every table has one value per column in each row.
pub open spec fn tables_fit(tables: Seq<TableView>) -> bool {
    forall|i: int| 0 <= i < tables.len() ==> rows_fit(#[trigger] tables[i].columns, tables[i].rows)
}

/// A table of the catalog, with the name it was created under. Tables are
/// found by that name, whatever name the table itself comes to carry.
pub struct EntryView {
    pub key: Seq<char>,
    pub table: TableView,
}

/// The position of the entry created under `key`, if any.
pub open spec fn key_position(db: Seq<EntryView>, key: Seq<char>) -> Option<int>
    decreases db.len(),
{
    if db.len() == 0 {
        None
    } else {
        match key_position(db.drop_last(), key) {
            Some(i) => Some(i),
            None => if db.last().key == key {
                Some(db.len() - 1)
            } else {
                None
            },
        }
    }
}

/// No two entries share a key.
pub open spec fn keys_distinct(db: Seq<EntryView>) -> bool {
    forall|i: int, j: int|
        0 <= i < db.len() && 0 <= j < db.len() && i != j ==> #[trigger] db[i].key
            != #[trigger] db[j].key
}

/// Every table is kept under its own name. `create_table`, `execute` and
/// `deserialize_database` keep this; `table_mut` lends out a table that its
/// caller may overwrite with one of another name, which stays under the
/// old key.
pub open spec fn keys_are_names(db: Seq<EntryView>) -> bool {
    forall|i: int| 0 <= i < db.len() ==> #[trigger] db[i].key == db[i].table.name
}

/// The tables of the catalog, in the order they were created.
pub open spec fn tables_of(db: Seq<EntryView>) -> Seq<TableView> {
    db.map_values(|e: EntryView| e.table)
}

/// The tables of a database, in the order they were created, each with the
/// name it was created under.
#[derive(Debug)]
pub struct Database {
    keys: Vec<String>,
    tables: Vec<Table>,
}

impl View for Database {
    type V = Seq<EntryView>;

    closed spec fn view(&self) -> Seq<EntryView> {
        Seq::new(
            self.tables@.len(),
            |i: int| EntryView { key: self.keys@[i]@, table: self.tables@[i]@ },
        )
    }
}

impl Default for Database {
    fn default() -> (r: Self)
        ensures
            r@ == Seq::<EntryView>::empty(),
    {
        Database::new()
    }
}

impl Database {
    /// One key for each table, and no key twice.
    #[verifier::type_invariant]
    spec fn keys_line_up(self) -> bool {
        &&& self.keys@.len() == self.tables@.len()
        &&& forall|i: int, j: int|
            0 <= i < self.keys@.len() && 0 <= j < self.keys@.len() && i != j
                ==> #[trigger] self.keys@[i]@ != #[trigger] self.keys@[j]@
    }

    /// The keys of a database whose keys line up are distinct.
    proof fn lemma_keys_distinct(&self)
        requires
            self.keys_line_up(),
        ensures
            keys_distinct(self@),
    {
        assert forall|i: int, j: int|
            0 <= i < self@.len() && 0 <= j < self@.len() && i != j implies #[trigger] self@[i].key
            != #[trigger] self@[j].key by {
            assert(self@[i].key == self.keys@[i]@);
            assert(self@[j].key == self.keys@[j]@);
        }
    }

    /// An empty database.
    pub fn new() -> (r: Self)
        ensures
            r@ == Seq::<EntryView>::empty(),
    {
        let r = Database { keys: Vec::new(), tables: Vec::new() };
        assert(r@ =~= Seq::<EntryView>::empty());
        r
    }

    /// The position of the table created under `name`.
    fn position(&self, name: &str) -> (r: Option<usize>)
        ensures
            r matches Some(i) ==> key_position(self@, name@) == Some(i as int) && i < self@.len()
                && self@[i as int].key == name@,
            r is None ==> key_position(self@, name@) is None,
    {
        proof {
            use_type_invariant(self);
            lemma_key_position_found(self@, name@);
        }
        let mut i: usize = 0;
        while i < self.tables.len()
            invariant
                i <= self@.len(),
                self@.len() == self.tables@.len(),
                self.keys@.len() == self.tables@.len(),
                key_position(self@.take(i as int), name@) is None,
            decreases self@.len() - i,
        {
            let ghost ts = self@;
            assert(ts.take(i + 1).drop_last() =~= ts.take(i as int));
            if crate::text::str_equal(self.keys[i].as_str(), name) {
                proof {
                    assert(ts[i as int].key == self.keys@[i as int]@);
                    lemma_key_position_prefix(ts, i + 1, name@);
                }
                return Some(i);
            }
            assert(ts[i as int].key == self.keys@[i as int]@);
            i = i + 1;
        }
        assert(self@.take(i as int) =~= self@);
        None
    }

    /// Adds `table` under its name unless a table was already created
    /// under that name; in that case the database is left as it was and
    /// the name is reported.
    pub fn create_table(&mut self, table: Table) -> (r: Result<(), CreateTableError>)
        ensures
            key_position(old(self)@, table@.name) is None ==> r is Ok && final(self)@ == old(
                self,
            )@.push(EntryView { key: table@.name, table: table@ }),
            key_position(old(self)@, table@.name) is Some ==> (r matches Err(
                CreateTableError::AlreadyExists(n),
            ) && n@ == table@.name) && final(self)@ == old(self)@,
            keys_are_names(old(self)@) ==> keys_are_names(final(self)@),
    {
        proof {
            use_type_invariant(&*self);
            self.lemma_keys_distinct();
        }
        let name = table.name().to_owned();
        match self.position(table.name()) {
            None => {
                let ghost entry = EntryView { key: table@.name, table: table@ };
                proof {
                    lemma_key_position_found(old(self)@, table@.name);
                    lemma_push_keeps_keys_distinct(old(self)@, entry);
                }
                let key = table.name().to_owned();
                let mut taken = Database::new();
                std::mem::swap(&mut taken, self);
                proof {
                    use_type_invariant(&taken);
                }
                let Database { mut keys, mut tables } = taken;
                keys.push(key);
                tables.push(table);
                proof {
                    assert(keys@[keys@.len() - 1]@ == entry.key);
                    assert forall|i: int, j: int|
                        0 <= i < keys@.len() && 0 <= j < keys@.len() && i != j implies #[trigger] keys@[i]@
                        != #[trigger] keys@[j]@ by {
                        if i < keys@.len() - 1 {
                            assert(old(self)@[i].key == keys@[i]@);
                        }
                        if j < keys@.len() - 1 {
                            assert(old(self)@[j].key == keys@[j]@);
                        }
                    }
                }
                let grown = Database { keys, tables };
                assert(grown@ =~= old(self)@.push(entry));
                *self = grown;
                Ok(())
            },
            Some(_) => Err(CreateTableError::AlreadyExists(name)),
        }
    }

    /// The table created under `name`, if there is one.
    pub fn table(&self, name: &str) -> (r: Option<&Table>)
        ensures
            match key_position(self@, name@) {
                Some(i) => 0 <= i < self@.len() && (r matches Some(t) && t@ == self@[i].table),
                None => r is None,
            },
    {
        proof {
            use_type_invariant(self);
        }
        match self.position(name) {
            Some(i) => {
                assert(self@[i as int].table == self.tables@[i as int]@);
                let t = &self.tables[i];
                Some(t)
            },
            None => None,
        }
    }

    /// The table created under `name`, for changing it in place. It stays
    /// under that name whatever is done with it.
    pub fn table_mut(&mut self, name: &str) -> (r: Option<&mut Table>)
        ensures
            match key_position(old(self)@, name@) {
                Some(i) => 0 <= i < old(self)@.len() && (r matches Some(t) && t@ == old(self)@[i].table
                    && final(self)@ == old(self)@.update(
                    i,
                    EntryView { key: old(self)@[i].key, table: final(t)@ },
                )),
                None => r is None && final(self)@ == old(self)@,
            },
    {
        proof {
            use_type_invariant(&*self);
        }
        match self.position(name) {
            Some(i) => {
                assert(self@[i as int].table == self.tables@[i as int]@);
                let t = &mut self.tables[i];
                Some(t)
            },
            None => None,
        }
    }

    /// All tables, in the order they were created. No two were created
    /// under the same name.
    pub fn tables(&self) -> (r: &[Table])
        ensures
            r.deep_view() == tables_of(self@),
            keys_distinct(self@),
    {
        proof {
            use_type_invariant(self);
            self.lemma_keys_distinct();
        }
        let r = self.tables.as_slice();
        assert(r.deep_view() =~= tables_of(self@));
        r
    }
}

/// The first entry found under a key has that key; where none is found, no
/// entry has it.
pub proof fn lemma_key_position_found(db: Seq<EntryView>, key: Seq<char>)
    ensures
        key_position(db, key) matches Some(i) ==> 0 <= i < db.len() && db[i].key == key,
        key_position(db, key) is None ==> forall|k: int|
            0 <= k < db.len() ==> #[trigger] db[k].key != key,
    decreases db.len(),
{
    if db.len() > 0 {
        lemma_key_position_found(db.drop_last(), key);
        assert forall|k: int| 0 <= k < db.len() - 1 implies db.drop_last()[k] == #[trigger] db[k] by {}
    }
}

/// Adding an entry under a key no entry has keeps the keys distinct.
pub proof fn lemma_push_keeps_keys_distinct(db: Seq<EntryView>, entry: EntryView)
    requires
        keys_distinct(db),
        forall|k: int| 0 <= k < db.len() ==> #[trigger] db[k].key != entry.key,
    ensures
        keys_distinct(db.push(entry)),
{
    let grown = db.push(entry);
    assert forall|i: int, j: int|
        0 <= i < grown.len() && 0 <= j < grown.len() && i != j implies #[trigger] grown[i].key
        != #[trigger] grown[j].key by {
        if i < db.len() && j < db.len() {
            assert(grown[i] == db[i] && grown[j] == db[j]);
        } else if i < db.len() {
            assert(grown[i] == db[i]);
        } else {
            assert(grown[j] == db[j]);
        }
    }
}

/// An entry just added is found under its key, at the end.
pub proof fn lemma_added_entry_is_found(db: Seq<EntryView>, entry: EntryView)
    requires
        key_position(db, entry.key) is None,
    ensures
        key_position(db.push(entry), entry.key) == Some(db.len() as int),
{
    assert(db.push(entry).drop_last() =~= db);
}

/// Once the first `k` entries hold a match, the position of the first match
/// is the same in the whole sequence.
pub proof fn lemma_key_position_prefix(db: Seq<EntryView>, k: int, key: Seq<char>)
    requires
        0 < k <= db.len(),
        key_position(db.take(k - 1), key) is None,
        db[k - 1].key == key,
    ensures
        key_position(db, key) == Some(k - 1),
{
    assert(db.take(k).drop_last() =~= db.take(k - 1));
    assert(key_position(db.take(k), key) == Some(k - 1));
    lemma_key_position_extend(db, k, key);
}

/// A match found in a prefix stays the first match of the whole sequence.
pub proof fn lemma_key_position_extend(db: Seq<EntryView>, k: int, key: Seq<char>)
    requires
        0 <= k <= db.len(),
        key_position(db.take(k), key) is Some,
    ensures
        key_position(db, key) == key_position(db.take(k), key),
    decreases db.len() - k,
{
    if k < db.len() {
        assert(db.take(k + 1).drop_last() =~= db.take(k));
        lemma_key_position_extend(db, k + 1, key);
    } else {
        assert(db.take(k) =~= db);
    }
}

/// Entries with the same keys in the same order find a key at the same
/// position.
pub proof fn lemma_same_keys_same_position(a: Seq<EntryView>, b: Seq<EntryView>, key: Seq<char>)
    requires
        a.len() == b.len(),
        forall|i: int| 0 <= i < a.len() ==> #[trigger] a[i].key == b[i].key,
    ensures
        key_position(a, key) == key_position(b, key),
    decreases a.len(),
{
    if a.len() > 0 {
        assert forall|i: int| 0 <= i < a.len() - 1 implies #[trigger] a.drop_last()[i].key
            == b.drop_last()[i].key by {
            assert(a.drop_last()[i] == a[i]);
            assert(b.drop_last()[i] == b[i]);
        }
        lemma_same_keys_same_position(a.drop_last(), b.drop_last(), key);
        assert(a.last() == a[a.len() - 1]);
        assert(b.last() == b[b.len() - 1]);
    }
}

/// Where every table is kept under its own name, finding a key is finding
/// a table of that name.
pub proof fn lemma_key_is_name(db: Seq<EntryView>, key: Seq<char>)
    requires
        keys_are_names(db),
    ensures
        key_position(db, key) == table_position(tables_of(db), key),
    decreases db.len(),
{
    if db.len() > 0 {
        let front = db.drop_last();
        assert forall|i: int| 0 <= i < front.len() implies #[trigger] front[i].key
            == front[i].table.name by {
            assert(front[i] == db[i]);
        }
        lemma_key_is_name(front, key);
        assert(tables_of(db).drop_last() =~= tables_of(front));
        assert(db.last() == db[db.len() - 1]);
    }
}

/// Where every table is kept under its own name and the keys are distinct,
/// the table names are distinct.
pub proof fn lemma_distinct_keys_distinct_names(db: Seq<EntryView>)
    requires
        keys_are_names(db),
        keys_distinct(db),
    ensures
        names_distinct(tables_of(db)),
{
    let ts = tables_of(db);
    assert forall|i: int, j: int|
        0 <= i < ts.len() && 0 <= j < ts.len() && i != j implies #[trigger] ts[i].name
        != #[trigger] ts[j].name by {
        assert(db[i].key == db[i].table.name);
        assert(db[j].key == db[j].table.name);
    }
}

/// The first match is a table of that name.
pub proof fn lemma_table_position_found(tables: Seq<TableView>, name: Seq<char>)
    ensures
        table_position(tables, name) matches Some(i) ==> 0 <= i < tables.len() && tables[i].name
            == name,
        table_position(tables, name) is None ==> forall|k: int|
            0 <= k < tables.len() ==> #[trigger] tables[k].name != name,
    decreases tables.len(),
{
    if tables.len() > 0 {
        lemma_table_position_found(tables.drop_last(), name);
        assert forall|k: int| 0 <= k < tables.len() - 1 implies tables.drop_last()[k] == #[trigger] tables[k] by {}
    }
}

} // verus!
