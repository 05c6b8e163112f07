//! The binary storage format, version 1 (little-endian):
//!
//! ```text
//! [magic: "DBL1"] [version: u16] [tables: u32]
//! for each table:
//!   [name length: u32] [name: UTF-8 bytes]
//!   [columns: u32]
//!   for each column: [name length: u32] [name: UTF-8 bytes]
//!   [rows: u32]
//!   for each row:
//!     [values: u32]
//!     for each value:
//!       [tag: u8] + payload
//!       tag 0 => integer (i64)
//!       tag 1 => text ([length: u32] [UTF-8 bytes])
//! ```

use crate::database::{
    keys_are_names, lemma_distinct_keys_distinct_names, lemma_key_is_name, table_position,
    tables_fit, tables_of, CreateTableError, Database, EntryView,
};
use crate::storage_laws::{lemma_database_round_trip, table_fits, within_limits};
use crate::table::{rows_fit, Column, InsertError, Row, Table, TableView};
use crate::text::{decimal_nat, decimal_string, push_str};
use crate::value::{Value, ValueView};
use vstd::prelude::*;
use vstd::utf8::{decode_utf8, encode_utf8, valid_utf8};

verus! {

/// Why bytes could not be read back as a database.
#[derive(Debug, Clone, PartialEq, Eq)]
pub enum StorageError {
    UnexpectedEof,
    InvalidTag(u8),
    InvalidUtf8,
    LengthOverflow,
    Io(String),
}

/// The mathematical value of a storage error.
pub enum StorageErrorView {
    UnexpectedEof,
    InvalidTag(u8),
    InvalidUtf8,
    LengthOverflow,
    Io(Seq<char>),
}

impl View for StorageError {
    type V = StorageErrorView;

    open spec fn view(&self) -> StorageErrorView {
        match self {
            StorageError::UnexpectedEof => StorageErrorView::UnexpectedEof,
            StorageError::InvalidTag(t) => StorageErrorView::InvalidTag(*t),
            StorageError::InvalidUtf8 => StorageErrorView::InvalidUtf8,
            StorageError::LengthOverflow => StorageErrorView::LengthOverflow,
            StorageError::Io(m) => StorageErrorView::Io(m@),
        }
    }
}

/// A place a database can be loaded from and saved to.
pub trait Storage {
    fn load(&self) -> Result<Database, StorageError>;

    fn save(&self, database: &Database) -> Result<(), StorageError>;
}

/// Storage held in memory.
pub struct MemoryStorage {
    data: Vec<u8>,
}

#[verifier::external_type_specification]
#[verifier::external_body]
pub struct ExPathBuf(std::path::PathBuf);

/// Storage in a file.
pub struct FileStorage {
    path: std::path::PathBuf,
}

/// The text `format!("{:?}", s)` produces for a string slice: the string in
/// double quotes, with the escapes of `str::escape_debug`.
pub uninterp spec fn debug_form(s: Seq<char>) -> Seq<char>;

/// Formats `s` with `<str as Debug>::fmt`. The contract only names the
/// result; what the escapes are is left to the standard library.
#[verifier::external_body]
fn debug_text(s: &str) -> (r: String)
    ensures
        r@ == debug_form(s@),
{
    format!("{:?}", s)
}

/// Decodes `bytes` with `std::str::from_utf8`: the text they encode when
/// they are valid UTF-8, nothing otherwise.
#[verifier::external_body]
fn text_from_utf8(bytes: &[u8]) -> (r: Option<&str>)
    ensures
        r is Some <==> valid_utf8(bytes@),
        r matches Some(s) ==> s@ == decode_utf8(bytes@),
{
    match std::str::from_utf8(bytes) {
        Ok(s) => Some(s),
        Err(_) => None,
    }
}

/// The `k` low-order bytes of `n`, least significant first.
pub open spec fn le_bytes(n: nat, k: nat) -> Seq<u8>
    decreases k,
{
    if k == 0 {
        Seq::empty()
    } else {
        seq![(n % 256) as u8] + le_bytes(n / 256, (k - 1) as nat)
    }
}

/// The number that little-endian bytes stand for.
pub open spec fn le_value(b: Seq<u8>) -> nat
    decreases b.len(),
{
    if b.len() == 0 {
        0
    } else {
        (b[0] as nat) + 256 * le_value(b.drop_first())
    }
}

/// A count as it is stored in 32 bits.
pub open spec fn wrap32(n: nat) -> nat {
    n % 0x1_0000_0000
}

/// The two's-complement bits of an integer.
pub open spec fn i64_bits(i: i64) -> nat {
    if i < 0 {
        (i + 0x1_0000_0000_0000_0000) as nat
    } else {
        i as nat
    }
}

/// The integer whose two's-complement bits are `v`.
pub open spec fn bits_i64(v: nat) -> i64 {
    if v >= 0x8000_0000_0000_0000 {
        (v - 0x1_0000_0000_0000_0000) as i64
    } else {
        v as i64
    }
}

/// A length-prefixed UTF-8 text.
pub open spec fn encode_text(s: Seq<char>) -> Seq<u8> {
    le_bytes(wrap32(encode_utf8(s).len()), 4) + encode_utf8(s)
}

/// A tagged value.
pub open spec fn encode_value(v: ValueView) -> Seq<u8> {
    match v {
        ValueView::Integer(i) => seq![0u8] + le_bytes(i64_bits(i), 8),
        ValueView::Text(s) => seq![1u8] + encode_text(s),
    }
}

/// Taking `size` bytes at `cursor`: the bytes and the cursor after them,
/// or why not (the cursor is then unchanged).
pub open spec fn take_spec(b: Seq<u8>, cursor: int, size: int) -> (
    Result<Seq<u8>, StorageErrorView>,
    int,
) {
    if cursor + size > usize::MAX {
        (Err(StorageErrorView::LengthOverflow), cursor)
    } else if cursor + size > b.len() {
        (Err(StorageErrorView::UnexpectedEof), cursor)
    } else {
        (Ok(b.subrange(cursor, cursor + size)), cursor + size)
    }
}

/// Reading a little-endian number of `size` bytes at `cursor`.
pub open spec fn number_spec(b: Seq<u8>, cursor: int, size: int) -> (
    Result<nat, StorageErrorView>,
    int,
) {
    match take_spec(b, cursor, size) {
        (Ok(x), c) => (Ok(le_value(x)), c),
        (Err(e), c) => (Err(e), c),
    }
}

/// Reading a length-prefixed UTF-8 text at `cursor`.
pub open spec fn text_spec(b: Seq<u8>, cursor: int) -> (Result<Seq<char>, StorageErrorView>, int) {
    match number_spec(b, cursor, 4) {
        (Err(e), c) => (Err(e), c),
        (Ok(n), c1) => match take_spec(b, c1, n as int) {
            (Err(e), c2) => (Err(e), c2),
            (Ok(x), c2) => if valid_utf8(x) {
                (Ok(decode_utf8(x)), c2)
            } else {
                (Err(StorageErrorView::InvalidUtf8), c2)
            },
        },
    }
}

/// Reading a tagged value at `cursor`.
pub open spec fn value_spec(b: Seq<u8>, cursor: int) -> (Result<ValueView, StorageErrorView>, int) {
    match take_spec(b, cursor, 1) {
        (Err(e), c) => (Err(e), c),
        (Ok(t), c1) => if t[0] == 0 {
            match number_spec(b, c1, 8) {
                (Err(e), c2) => (Err(e), c2),
                (Ok(v), c2) => (Ok(ValueView::Integer(bits_i64(v))), c2),
            }
        } else if t[0] == 1 {
            match text_spec(b, c1) {
                (Err(e), c2) => (Err(e), c2),
                (Ok(s), c2) => (Ok(ValueView::Text(s)), c2),
            }
        } else {
            (Err(StorageErrorView::InvalidTag(t[0])), c1)
        },
    }
}

/// The values of a row, one after another.
pub open spec fn encode_values(vs: Seq<ValueView>) -> Seq<u8>
    decreases vs.len(),
{
    if vs.len() == 0 {
        Seq::empty()
    } else {
        encode_values(vs.drop_last()) + encode_value(vs.last())
    }
}

/// A row: its number of values, then the values.
pub open spec fn encode_row(r: Seq<ValueView>) -> Seq<u8> {
    le_bytes(wrap32(r.len()), 4) + encode_values(r)
}

/// Rows, one after another.
pub open spec fn encode_rows(rs: Seq<Seq<ValueView>>) -> Seq<u8>
    decreases rs.len(),
{
    if rs.len() == 0 {
        Seq::empty()
    } else {
        encode_rows(rs.drop_last()) + encode_row(rs.last())
    }
}

/// Texts, one after another.
pub open spec fn encode_texts(ts: Seq<Seq<char>>) -> Seq<u8>
    decreases ts.len(),
{
    if ts.len() == 0 {
        Seq::empty()
    } else {
        encode_texts(ts.drop_last()) + encode_text(ts.last())
    }
}

/// A table: its name, its columns and its rows, each list preceded by its
/// length.
pub open spec fn encode_table(t: TableView) -> Seq<u8> {
    encode_text(t.name) + le_bytes(wrap32(t.columns.len()), 4) + encode_texts(t.columns)
        + le_bytes(wrap32(t.rows.len()), 4) + encode_rows(t.rows)
}

/// Tables, one after another.
pub open spec fn encode_tables(ts: Seq<TableView>) -> Seq<u8>
    decreases ts.len(),
{
    if ts.len() == 0 {
        Seq::empty()
    } else {
        encode_tables(ts.drop_last()) + encode_table(ts.last())
    }
}

/// The bytes that open every stored database.
pub open spec fn magic() -> Seq<u8> {
    seq![68u8, 66u8, 76u8, 49u8]
}

/// A whole database: magic, format version 1, the number of tables, then
/// the tables in order.
pub open spec fn encode_database(ts: Seq<TableView>) -> Seq<u8> {
    magic() + le_bytes(1, 2) + le_bytes(wrap32(ts.len()), 4) + encode_tables(ts)
}

/// The message for a row whose length does not match the columns: the
/// debug form of the insert error.
pub open spec fn wrong_count_message(expected: nat, actual: nat) -> Seq<char> {
    "WrongValueCount { expected: "@ + decimal_nat(expected) + ", actual: "@ + decimal_nat(actual)
        + " }"@
}

/// The message for a second table of the same name: the debug form of the
/// create error.
pub open spec fn already_exists_message(name: Seq<char>) -> Seq<char> {
    "AlreadyExists("@ + debug_form(name) + ")"@
}

/// Reading `n` values one after another.
pub open spec fn values_spec(b: Seq<u8>, cursor: int, n: nat) -> (
    Result<Seq<ValueView>, StorageErrorView>,
    int,
)
    decreases n,
{
    if n == 0 {
        (Ok(Seq::empty()), cursor)
    } else {
        match values_spec(b, cursor, (n - 1) as nat) {
            (Err(e), c) => (Err(e), c),
            (Ok(vs), c) => match value_spec(b, c) {
                (Err(e), c2) => (Err(e), c2),
                (Ok(v), c2) => (Ok(vs.push(v)), c2),
            },
        }
    }
}

/// Reading a row: its number of values, then the values.
pub open spec fn row_spec(b: Seq<u8>, cursor: int) -> (
    Result<Seq<ValueView>, StorageErrorView>,
    int,
) {
    match number_spec(b, cursor, 4) {
        (Err(e), c) => (Err(e), c),
        (Ok(n), c) => values_spec(b, c, n),
    }
}

/// Reading `n` rows into a table with the given columns; a row of the
/// wrong length is refused.
pub open spec fn rows_spec(b: Seq<u8>, cursor: int, n: nat, columns: Seq<Seq<char>>) -> (
    Result<Seq<Seq<ValueView>>, StorageErrorView>,
    int,
)
    decreases n,
{
    if n == 0 {
        (Ok(Seq::empty()), cursor)
    } else {
        match rows_spec(b, cursor, (n - 1) as nat, columns) {
            (Err(e), c) => (Err(e), c),
            (Ok(rs), c) => match row_spec(b, c) {
                (Err(e), c2) => (Err(e), c2),
                (Ok(r), c2) => if r.len() == columns.len() {
                    (Ok(rs.push(r)), c2)
                } else {
                    (
                        Err(
                            StorageErrorView::Io(wrong_count_message(columns.len(), r.len())),
                        ),
                        c2,
                    )
                },
            },
        }
    }
}

/// Reading `n` texts one after another.
pub open spec fn texts_spec(b: Seq<u8>, cursor: int, n: nat) -> (
    Result<Seq<Seq<char>>, StorageErrorView>,
    int,
)
    decreases n,
{
    if n == 0 {
        (Ok(Seq::empty()), cursor)
    } else {
        match texts_spec(b, cursor, (n - 1) as nat) {
            (Err(e), c) => (Err(e), c),
            (Ok(ts), c) => match text_spec(b, c) {
                (Err(e), c2) => (Err(e), c2),
                (Ok(t), c2) => (Ok(ts.push(t)), c2),
            },
        }
    }
}

/// Reading a table.
pub open spec fn table_spec(b: Seq<u8>, cursor: int) -> (Result<TableView, StorageErrorView>, int) {
    match text_spec(b, cursor) {
        (Err(e), c) => (Err(e), c),
        (Ok(name), c1) => match number_spec(b, c1, 4) {
            (Err(e), c) => (Err(e), c),
            (Ok(ncols), c2) => match texts_spec(b, c2, ncols) {
                (Err(e), c) => (Err(e), c),
                (Ok(columns), c3) => match number_spec(b, c3, 4) {
                    (Err(e), c) => (Err(e), c),
                    (Ok(nrows), c4) => match rows_spec(b, c4, nrows, columns) {
                        (Err(e), c) => (Err(e), c),
                        (Ok(rows), c5) => (Ok(TableView { name, columns, rows }), c5),
                    },
                },
            },
        },
    }
}

/// Reading `n` tables into a catalog; a second table of the same name is
/// refused.
pub open spec fn tables_spec(b: Seq<u8>, cursor: int, n: nat) -> (
    Result<Seq<TableView>, StorageErrorView>,
    int,
)
    decreases n,
{
    if n == 0 {
        (Ok(Seq::empty()), cursor)
    } else {
        match tables_spec(b, cursor, (n - 1) as nat) {
            (Err(e), c) => (Err(e), c),
            (Ok(ts), c) => match table_spec(b, c) {
                (Err(e), c2) => (Err(e), c2),
                (Ok(t), c2) => if table_position(ts, t.name) is Some {
                    (Err(StorageErrorView::Io(already_exists_message(t.name))), c2)
                } else {
                    (Ok(ts.push(t)), c2)
                },
            },
        }
    }
}

/// Reading a whole database.
pub open spec fn decode_database(b: Seq<u8>) -> Result<Seq<TableView>, StorageErrorView> {
    match take_spec(b, 0, 4) {
        (Err(e), _) => Err(e),
        (Ok(m), _) => if m != magic() {
            Err(StorageErrorView::Io("invalid magic"@))
        } else {
            match number_spec(b, 4, 2) {
                (Err(e), _) => Err(e),
                (Ok(_), _) => match number_spec(b, 6, 4) {
                    (Err(e), _) => Err(e),
                    (Ok(n), c) => tables_spec(b, c, n).0,
                },
            }
        },
    }
}

/// Once reading values has failed, reading more of them fails the same way.
pub proof fn lemma_values_error_stays(b: Seq<u8>, c: int, k: nat, n: nat)
    requires
        k <= n,
        values_spec(b, c, k).0 is Err,
    ensures
        values_spec(b, c, n) == values_spec(b, c, k),
    decreases n - k,
{
    if k < n {
        lemma_values_error_stays(b, c, k, (n - 1) as nat);
    }
}

/// Once reading texts has failed, reading more of them fails the same way.
pub proof fn lemma_texts_error_stays(b: Seq<u8>, c: int, k: nat, n: nat)
    requires
        k <= n,
        texts_spec(b, c, k).0 is Err,
    ensures
        texts_spec(b, c, n) == texts_spec(b, c, k),
    decreases n - k,
{
    if k < n {
        lemma_texts_error_stays(b, c, k, (n - 1) as nat);
    }
}

/// Once reading rows has failed, reading more of them fails the same way.
pub proof fn lemma_rows_error_stays(b: Seq<u8>, c: int, k: nat, n: nat, columns: Seq<Seq<char>>)
    requires
        k <= n,
        rows_spec(b, c, k, columns).0 is Err,
    ensures
        rows_spec(b, c, n, columns) == rows_spec(b, c, k, columns),
    decreases n - k,
{
    if k < n {
        lemma_rows_error_stays(b, c, k, (n - 1) as nat, columns);
    }
}

/// Once reading tables has failed, reading more of them fails the same way.
pub proof fn lemma_tables_error_stays(b: Seq<u8>, c: int, k: nat, n: nat)
    requires
        k <= n,
        tables_spec(b, c, k).0 is Err,
    ensures
        tables_spec(b, c, n) == tables_spec(b, c, k),
    decreases n - k,
{
    if k < n {
        lemma_tables_error_stays(b, c, k, (n - 1) as nat);
    }
}

/// The view of a reading result.
pub open spec fn read_view<T: View>(r: Result<T, StorageError>) -> Result<T::V, StorageErrorView> {
    match r {
        Ok(v) => Ok(v@),
        Err(e) => Err(e@),
    }
}

/// Four little-endian bytes, spelled out.
pub proof fn lemma_le_value_4(x: Seq<u8>)
    requires
        x.len() == 4,
    ensures
        le_value(x) == x[0] + 256 * x[1] + 65536 * x[2] + 16777216 * x[3],
{
    let x1 = x.drop_first();
    let x2 = x1.drop_first();
    let x3 = x2.drop_first();
    let x4 = x3.drop_first();
    assert(le_value(x4) == 0);
    assert(le_value(x3) == x[3]);
    assert(le_value(x2) == x[2] + 256 * x[3]);
    assert(le_value(x1) == x[1] + 256 * x[2] + 65536 * x[3]);
}

/// Two little-endian bytes, spelled out.
pub proof fn lemma_le_value_2(x: Seq<u8>)
    requires
        x.len() == 2,
    ensures
        le_value(x) == x[0] + 256 * x[1],
{
    let x1 = x.drop_first();
    let x2 = x1.drop_first();
    assert(le_value(x2) == 0);
    assert(le_value(x1) == x[1]);
}

/// Eight little-endian bytes: the low four and the high four.
pub proof fn lemma_le_value_8(x: Seq<u8>)
    requires
        x.len() == 8,
    ensures
        le_value(x) == le_value(x.subrange(0, 4)) + 4294967296 * le_value(x.subrange(4, 8)),
        le_value(x.subrange(0, 4)) == x[0] + 256 * x[1] + 65536 * x[2] + 16777216 * x[3],
        le_value(x.subrange(4, 8)) == x[4] + 256 * x[5] + 65536 * x[6] + 16777216 * x[7],
{
    let hi = x.subrange(4, 8);
    lemma_le_value_4(x.subrange(0, 4));
    lemma_le_value_4(hi);
    let x1 = x.drop_first();
    let x2 = x1.drop_first();
    let x3 = x2.drop_first();
    let x4 = x3.drop_first();
    assert(x4 =~= hi);
    assert(le_value(x3) == x[3] + 256 * le_value(hi));
    assert(le_value(x2) == x[2] + 256 * x[3] + 65536 * le_value(hi));
    assert(le_value(x1) == x[1] + 256 * x[2] + 65536 * x[3] + 16777216 * le_value(hi));
}

/// Appends the `k` low-order bytes of `n`, least significant first.
fn push_le(out: &mut Vec<u8>, n: u64, k: usize)
    ensures
        final(out)@ == old(out)@ + le_bytes(n as nat, k as nat),
{
    let mut v = n;
    let mut j: usize = 0;
    while j < k
        invariant
            j <= k,
            old(out)@ + le_bytes(n as nat, k as nat) == out@ + le_bytes(v as nat, (k - j) as nat),
        decreases k - j,
    {
        let ghost rest = le_bytes((v / 256) as nat, (k - j - 1) as nat);
        assert(le_bytes(v as nat, (k - j) as nat) == seq![(v % 256) as u8] + rest);
        out.push((v % 256) as u8);
        assert(out@ + rest =~= old(out)@ + le_bytes(n as nat, k as nat));
        v = v / 256;
        j = j + 1;
    }
    assert(le_bytes(v as nat, 0) =~= Seq::<u8>::empty());
    assert(out@ + Seq::<u8>::empty() =~= out@);
}

/// Appends `bytes`.
fn push_bytes(out: &mut Vec<u8>, bytes: &[u8])
    ensures
        final(out)@ == old(out)@ + bytes@,
{
    let mut i: usize = 0;
    while i < bytes.len()
        invariant
            i <= bytes@.len(),
            out@ == old(out)@ + bytes@.take(i as int),
        decreases bytes@.len() - i,
    {
        out.push(bytes[i]);
        assert(old(out)@ + bytes@.take(i + 1) =~= out@);
        i = i + 1;
    }
    assert(bytes@.take(bytes@.len() as int) =~= bytes@);
}

/// A length as it is stored: its value modulo 2^32.
fn stored_length(len: usize) -> (r: u64)
    ensures
        r == wrap32(len as nat),
{
    (len as u64) % 4294967296
}

/// Appends a length-prefixed UTF-8 text.
fn write_string(output: &mut Vec<u8>, value: &str) -> (r: Result<(), StorageError>)
    ensures
        r is Ok,
        final(output)@ == old(output)@ + encode_text(value@),
{
    let bytes = value.as_bytes();
    push_le(output, stored_length(bytes.len()), 4);
    push_bytes(output, bytes);
    assert(old(output)@ + le_bytes(wrap32(encode_utf8(value@).len()), 4) + encode_utf8(value@)
        =~= old(output)@ + encode_text(value@));
    Ok(())
}

/// The two's-complement bits of `i`.
fn bits_of(i: i64) -> (r: u64)
    ensures
        r == i64_bits(i),
{
    if i < 0 {
        (((i + i64::MAX) + 1) as u64) + 0x8000_0000_0000_0000
    } else {
        i as u64
    }
}

/// Writes a `Value` to the given output buffer in a binary format.
pub fn write_value(output: &mut Vec<u8>, value: &Value)
    ensures
        final(output)@ == old(output)@ + encode_value(value@),
{
    match value {
        Value::Integer(number) => {
            output.push(0);
            push_le(output, bits_of(*number), 8);
            assert(old(output)@.push(0) + le_bytes(i64_bits(*number), 8) =~= old(output)@
                + encode_value(value@));
        },
        Value::Text(text) => {
            output.push(1);
            let _ = write_string(output, text.as_str());
            assert(old(output)@.push(1) + encode_text(text@) =~= old(output)@ + encode_value(
                value@,
            ));
        },
    }
}

/// Takes `size` bytes at `cursor` and moves past them.
fn read_exact<'a>(input: &'a [u8], cursor: &mut usize, size: usize) -> (r: Result<
    &'a [u8],
    StorageError,
>)
    ensures
        (read_view(r), *final(cursor) as int) == take_spec(input@, *old(cursor) as int, size as int),
{
    let end = match cursor.checked_add(size) {
        Some(end) => end,
        None => {
            return Err(StorageError::LengthOverflow);
        },
    };
    if end > input.len() {
        return Err(StorageError::UnexpectedEof);
    }
    let chunk = &input[*cursor..end];
    *cursor = end;
    Ok(chunk)
}

/// Reads one byte.
fn read_u8(input: &[u8], cursor: &mut usize) -> (r: Result<u8, StorageError>)
    ensures
        (read_view(r), *final(cursor) as int) == match take_spec(
            input@,
            *old(cursor) as int,
            1,
        ) {
            (Ok(x), c) => (Ok::<u8, StorageErrorView>(x[0]), c),
            (Err(e), c) => (Err(e), c),
        },
{
    let bytes = read_exact(input, cursor, 1)?;
    Ok(bytes[0])
}

/// Reads a little-endian `u16`.
fn read_u16(input: &[u8], cursor: &mut usize) -> (r: Result<u16, StorageError>)
    ensures
        ({
            let (res, c) = number_spec(input@, *old(cursor) as int, 2);
            &&& *final(cursor) == c
            &&& match r {
                Ok(v) => res == Ok::<nat, StorageErrorView>(v as nat),
                Err(e) => res == Err::<nat, StorageErrorView>(e@),
            }
        }),
{
    let bytes = read_exact(input, cursor, 2)?;
    proof {
        lemma_le_value_2(bytes@);
    }
    Ok((bytes[0] as u16) + (bytes[1] as u16) * 256)
}

/// Reads a little-endian `u32`.
fn read_u32(input: &[u8], cursor: &mut usize) -> (r: Result<u32, StorageError>)
    ensures
        ({
            let (res, c) = number_spec(input@, *old(cursor) as int, 4);
            &&& *final(cursor) == c
            &&& match r {
                Ok(v) => res == Ok::<nat, StorageErrorView>(v as nat),
                Err(e) => res == Err::<nat, StorageErrorView>(e@),
            }
        }),
{
    let bytes = read_exact(input, cursor, 4)?;
    proof {
        lemma_le_value_4(bytes@);
    }
    Ok((bytes[0] as u32) + (bytes[1] as u32) * 256 + (bytes[2] as u32) * 65536 + (bytes[3] as u32)
        * 16777216)
}

/// Reads a little-endian `u64`.
fn read_u64(input: &[u8], cursor: &mut usize) -> (r: Result<u64, StorageError>)
    ensures
        ({
            let (res, c) = number_spec(input@, *old(cursor) as int, 8);
            &&& *final(cursor) == c
            &&& match r {
                Ok(v) => res == Ok::<nat, StorageErrorView>(v as nat),
                Err(e) => res == Err::<nat, StorageErrorView>(e@),
            }
        }),
{
    let bytes = read_exact(input, cursor, 8)?;
    proof {
        lemma_le_value_8(bytes@);
    }
    let low: u64 = (bytes[0] as u64) + (bytes[1] as u64) * 256 + (bytes[2] as u64) * 65536 + (
    bytes[3] as u64) * 16777216;
    let high: u64 = (bytes[4] as u64) + (bytes[5] as u64) * 256 + (bytes[6] as u64) * 65536 + (
    bytes[7] as u64) * 16777216;
    Ok(low + high * 4294967296)
}

/// Reads a length-prefixed UTF-8 text.
fn read_string(input: &[u8], cursor: &mut usize) -> (r: Result<String, StorageError>)
    ensures
        (read_view(r), *final(cursor) as int) == text_spec(input@, *old(cursor) as int),
{
    let length = read_u32(input, cursor)? as usize;
    let bytes = read_exact(input, cursor, length)?;
    match text_from_utf8(bytes) {
        Some(text) => Ok(text.to_owned()),
        None => Err(StorageError::InvalidUtf8),
    }
}

/// The integer with two's-complement bits `v`.
fn integer_of_bits(v: u64) -> (r: i64)
    ensures
        r == bits_i64(v as nat),
{
    if v >= 0x8000_0000_0000_0000 {
        ((v - 0x8000_0000_0000_0000) as i64) - i64::MAX - 1
    } else {
        v as i64
    }
}

/// Reads a tagged value at `cursor` and moves past it. On an error the
/// cursor stays where reading stopped.
pub fn read_value(input: &[u8], cursor: &mut usize) -> (r: Result<Value, StorageError>)
    ensures
        (read_view(r), *final(cursor) as int) == value_spec(input@, *old(cursor) as int),
{
    let tag = read_u8(input, cursor)?;
    match tag {
        0 => {
            let bits = read_u64(input, cursor)?;
            Ok(Value::Integer(integer_of_bits(bits)))
        },
        1 => {
            let text = read_string(input, cursor)?;
            Ok(Value::Text(text))
        },
        other => Err(StorageError::InvalidTag(other)),
    }
}

/// Appends a table in the storage format.
fn write_table(out: &mut Vec<u8>, table: &Table)
    ensures
        final(out)@ == old(out)@ + encode_table(table@),
        rows_fit(table@.columns, table@.rows),
{
    let ghost t = table@;
    let _ = write_string(out, table.name());
    let ghost after_name = out@;
    let columns = table.columns();
    push_le(out, stored_length(columns.len()), 4);
    let ghost start = out@;
    let mut i: usize = 0;
    while i < columns.len()
        invariant
            i <= columns@.len(),
            columns.deep_view() == t.columns,
            out@ == start + encode_texts(t.columns.take(i as int)),
        decreases columns@.len() - i,
    {
        let ghost before = out@;
        let _ = write_string(out, columns[i].name.as_str());
        assert(t.columns.take(i + 1).drop_last() =~= t.columns.take(i as int));
        assert(t.columns.take(i + 1).last() == columns@[i as int].name@);
        assert(out@ =~= start + encode_texts(t.columns.take(i + 1)));
        i = i + 1;
    }
    assert(t.columns.take(columns@.len() as int) =~= t.columns);
    let rows = table.rows();
    push_le(out, stored_length(rows.len()), 4);
    let ghost start_rows = out@;
    let mut k: usize = 0;
    while k < rows.len()
        invariant
            k <= rows@.len(),
            rows.deep_view() == t.rows,
            out@ == start_rows + encode_rows(t.rows.take(k as int)),
        decreases rows@.len() - k,
    {
        let values = rows[k].values();
        assert(values.deep_view() == t.rows[k as int]);
        let ghost row_start = out@;
        push_le(out, stored_length(values.len()), 4);
        let ghost values_start = out@;
        let mut m: usize = 0;
        while m < values.len()
            invariant
                m <= values@.len(),
                out@ == values_start + encode_values(values.deep_view().take(m as int)),
            decreases values@.len() - m,
        {
            write_value(out, &values[m]);
            assert(values.deep_view().take(m + 1).drop_last() =~= values.deep_view().take(
                m as int,
            ));
            assert(out@ =~= values_start + encode_values(values.deep_view().take(m + 1)));
            m = m + 1;
        }
        assert(values.deep_view().take(values@.len() as int) =~= values.deep_view());
        assert(out@ =~= row_start + encode_row(t.rows[k as int]));
        assert(t.rows.take(k + 1).drop_last() =~= t.rows.take(k as int));
        assert(out@ =~= start_rows + encode_rows(t.rows.take(k + 1)));
        k = k + 1;
    }
    assert(t.rows.take(rows@.len() as int) =~= t.rows);
    assert(out@ =~= old(out)@ + encode_table(t));
}

/// Writes every table of `database`, in order, in the storage format.
/// Lengths and counts are stored modulo 2^32.
pub fn serialize_database(database: &Database) -> (r: Result<Vec<u8>, StorageError>)
    ensures
        r matches Ok(bytes) && bytes@ == encode_database(tables_of(database@)),
        tables_fit(tables_of(database@)),
        keys_are_names(database@) && database@.len() < 0x1_0000_0000 && (forall|i: int|
            0 <= i < database@.len() ==> within_limits(#[trigger] database@[i].table)) ==> (r matches Ok(
            bytes
        ) && decode_database(bytes@) == Ok::<Seq<TableView>, StorageErrorView>(tables_of(database@))),
{
    let mut out: Vec<u8> = Vec::new();
    out.push(68);
    out.push(66);
    out.push(76);
    out.push(49);
    push_le(&mut out, 1, 2);
    let tables = database.tables();
    push_le(&mut out, stored_length(tables.len()), 4);
    let ghost ts = tables_of(database@);
    let ghost start = out@;
    assert(start =~= magic() + le_bytes(1, 2) + le_bytes(wrap32(ts.len()), 4));
    let mut i: usize = 0;
    while i < tables.len()
        invariant
            i <= tables@.len(),
            tables.deep_view() == ts,
            out@ == start + encode_tables(ts.take(i as int)),
            forall|k: int| 0 <= k < i ==> rows_fit(#[trigger] ts[k].columns, ts[k].rows),
        decreases tables@.len() - i,
    {
        write_table(&mut out, &tables[i]);
        assert(tables@[i as int]@ == ts[i as int]);
        assert(ts.take(i + 1).drop_last() =~= ts.take(i as int));
        assert(ts.take(i + 1).last() == tables@[i as int]@);
        assert(out@ =~= start + encode_tables(ts.take(i + 1)));
        i = i + 1;
    }
    assert(ts.take(tables@.len() as int) =~= ts);
    let written: usize = out.len();
    assert(written == encode_database(ts).len());
    proof {
        if keys_are_names(database@) && ts.len() < 0x1_0000_0000 && (forall|i: int|
            0 <= i < database@.len() ==> within_limits(#[trigger] database@[i].table)) {
            lemma_distinct_keys_distinct_names(database@);
            assert forall|i: int| 0 <= i < ts.len() implies table_fits(#[trigger] ts[i]) by {
                assert(within_limits(ts[i]));
                assert(rows_fit(ts[i].columns, ts[i].rows));
            }
            lemma_database_round_trip(ts);
        }
    }
    Ok(out)
}

/// The debug form of an insert error.
fn insert_error_message(e: &InsertError) -> (r: String)
    ensures
        match e {
            InsertError::WrongValueCount { expected, actual } => r@ == wrong_count_message(
                *expected as nat,
                *actual as nat,
            ),
        },
{
    match e {
        InsertError::WrongValueCount { expected, actual } => {
            let mut m = String::new();
            push_str(&mut m, "WrongValueCount { expected: ");
            push_str(&mut m, decimal_string(*expected as u64).as_str());
            push_str(&mut m, ", actual: ");
            push_str(&mut m, decimal_string(*actual as u64).as_str());
            push_str(&mut m, " }");
            assert(m@ =~= wrong_count_message(*expected as nat, *actual as nat));
            m
        },
    }
}

/// The debug form of a create error.
fn create_error_message(e: &CreateTableError) -> (r: String)
    ensures
        match e {
            CreateTableError::AlreadyExists(name) => r@ == already_exists_message(name@),
        },
{
    match e {
        CreateTableError::AlreadyExists(name) => {
            let mut m = String::new();
            push_str(&mut m, "AlreadyExists(");
            push_str(&mut m, debug_text(name.as_str()).as_str());
            push_str(&mut m, ")");
            assert(m@ =~= already_exists_message(name@));
            m
        },
    }
}

/// Reads `n` values one after another.
fn read_values(input: &[u8], cursor: &mut usize, n: u32) -> (r: Result<Vec<Value>, StorageError>)
    ensures
        ({
            let (res, c) = values_spec(input@, *old(cursor) as int, n as nat);
            &&& *final(cursor) == c
            &&& match r {
                Ok(vs) => res == Ok::<Seq<ValueView>, StorageErrorView>(vs.deep_view()),
                Err(e) => res == Err::<Seq<ValueView>, StorageErrorView>(e@),
            }
        }),
{
    let mut values: Vec<Value> = Vec::new();
    let mut k: u32 = 0;
    assert(values.deep_view() =~= Seq::<ValueView>::empty());
    while k < n
        invariant
            k <= n,
            n == n,
            values_spec(input@, *old(cursor) as int, k as nat) == (
                Ok::<Seq<ValueView>, StorageErrorView>(values.deep_view()),
                *cursor as int,
            ),
        decreases n - k,
    {
        let ghost c = *cursor as int;
        let v = match read_value(input, cursor) {
            Ok(v) => v,
            Err(e) => {
                proof {
                    lemma_values_error_stays(input@, *old(cursor) as int, (k + 1) as nat, n as nat);
                }
                return Err(e);
            },
        };
        let ghost before = values.deep_view();
        let ghost vv = v@;
        values.push(v);
        assert(values.deep_view() =~= before.push(vv));
        k = k + 1;
    }
    Ok(values)
}

/// Reads `n` texts one after another.
fn read_strings(input: &[u8], cursor: &mut usize, n: u32) -> (r: Result<Vec<Column>, StorageError>)
    ensures
        ({
            let (res, c) = texts_spec(input@, *old(cursor) as int, n as nat);
            &&& *final(cursor) == c
            &&& match r {
                Ok(cs) => res == Ok::<Seq<Seq<char>>, StorageErrorView>(cs.deep_view()),
                Err(e) => res == Err::<Seq<Seq<char>>, StorageErrorView>(e@),
            }
        }),
{
    let mut columns: Vec<Column> = Vec::new();
    let mut k: u32 = 0;
    assert(columns.deep_view() =~= Seq::<Seq<char>>::empty());
    while k < n
        invariant
            k <= n,
            texts_spec(input@, *old(cursor) as int, k as nat) == (
                Ok::<Seq<Seq<char>>, StorageErrorView>(columns.deep_view()),
                *cursor as int,
            ),
        decreases n - k,
    {
        let name = match read_string(input, cursor) {
            Ok(name) => name,
            Err(e) => {
                proof {
                    lemma_texts_error_stays(input@, *old(cursor) as int, (k + 1) as nat, n as nat);
                }
                return Err(e);
            },
        };
        let column = Column::new(name.as_str());
        let ghost before = columns.deep_view();
        columns.push(column);
        assert(columns.deep_view() =~= before.push(name@));
        k = k + 1;
    }
    Ok(columns)
}

/// Reads a row: its number of values, then the values.
fn read_row(input: &[u8], cursor: &mut usize) -> (r: Result<Vec<Value>, StorageError>)
    ensures
        ({
            let (res, c) = row_spec(input@, *old(cursor) as int);
            &&& *final(cursor) == c
            &&& match r {
                Ok(vs) => res == Ok::<Seq<ValueView>, StorageErrorView>(vs.deep_view()),
                Err(e) => res == Err::<Seq<ValueView>, StorageErrorView>(e@),
            }
        }),
{
    let value_count = read_u32(input, cursor)?;
    read_values(input, cursor, value_count)
}

/// Reads a table: its name, its columns and its rows.
fn read_table(input: &[u8], cursor: &mut usize) -> (r: Result<Table, StorageError>)
    ensures
        ({
            let (res, c) = table_spec(input@, *old(cursor) as int);
            &&& *final(cursor) == c
            &&& match r {
                Ok(t) => res == Ok::<TableView, StorageErrorView>(t@),
                Err(e) => res == Err::<TableView, StorageErrorView>(e@),
            }
        }),
{
    let table_name = read_string(input, cursor)?;
    let column_count = read_u32(input, cursor)?;
    let columns = read_strings(input, cursor, column_count)?;
    let mut table = Table::new(table_name.as_str(), columns);
    let ghost name = table@.name;
    let ghost cols = table@.columns;
    let row_count = read_u32(input, cursor)?;
    let ghost c4 = *cursor as int;
    let mut k: u32 = 0;
    assert(Seq::<Seq<ValueView>>::empty() =~= table@.rows);
    while k < row_count
        invariant
            k <= row_count,
            table_spec(input@, *old(cursor) as int) == match rows_spec(
                input@,
                c4,
                row_count as nat,
                cols,
            ) {
                (Err(e), c) => (Err::<TableView, StorageErrorView>(e), c),
                (Ok(rows), c) => (Ok(TableView { name, columns: cols, rows }), c),
            },
            table@.name == name,
            table@.columns == cols,
            rows_spec(input@, c4, k as nat, cols) == (
                Ok::<Seq<Seq<ValueView>>, StorageErrorView>(table@.rows),
                *cursor as int,
            ),
        decreases row_count - k,
    {
        let ghost before = *cursor as int;
        let row = read_row(input, cursor);
        let ghost after = *cursor as int;
        let values = match row {
            Ok(values) => values,
            Err(e) => {
                proof {
                    lemma_rows_error_stays(input@, c4, (k + 1) as nat, row_count as nat, cols);
                }
                return Err(e);
            },
        };
        let ghost vals = values.deep_view();
        assert(row_spec(input@, before) == (Ok::<Seq<ValueView>, StorageErrorView>(vals), after));
        match table.insert(Row::new(values)) {
            Ok(()) => {},
            Err(e) => {
                let m = insert_error_message(&e);
                assert(vals.len() != cols.len());
                assert(m@ == wrong_count_message(cols.len(), vals.len()));
                assert(rows_spec(input@, c4, (k + 1) as nat, cols) == (Err::<Seq<Seq<ValueView>>, StorageErrorView>(StorageErrorView::Io(m@)), after));
                proof {
                    lemma_rows_error_stays(input@, c4, (k + 1) as nat, row_count as nat, cols);
                }
                return Err(StorageError::Io(m));
            },
        }
        k = k + 1;
    }
    Ok(table)
}

/// Reads back a database written by `serialize_database`.
pub fn deserialize_database(bytes: &[u8]) -> (r: Result<Database, StorageError>)
    ensures
        match r {
            Ok(db) => decode_database(bytes@) == Ok::<Seq<TableView>, StorageErrorView>(
                tables_of(db@),
            ) && keys_are_names(db@),
            Err(e) => decode_database(bytes@) == Err::<Seq<TableView>, StorageErrorView>(e@),
        },
{
    let mut cursor: usize = 0;
    let magic_bytes = read_exact(bytes, &mut cursor, 4)?;
    if !(magic_bytes[0] == 68 && magic_bytes[1] == 66 && magic_bytes[2] == 76 && magic_bytes[3]
        == 49) {
        assert(magic_bytes@ != magic()) by {
            if magic_bytes@ == magic() {
                assert(magic_bytes@[0] == 68);
            }
        }
        let mut m = String::new();
        push_str(&mut m, "invalid magic");
        return Err(StorageError::Io(m));
    }
    assert(magic_bytes@ =~= magic());
    let _version = read_u16(bytes, &mut cursor)?;
    let table_count = read_u32(bytes, &mut cursor)?;
    let ghost c0 = cursor as int;
    let mut database = Database::new();
    assert(tables_of(database@) =~= Seq::<TableView>::empty());
    let mut k: u32 = 0;
    while k < table_count
        invariant
            k <= table_count,
            keys_are_names(database@),
            decode_database(bytes@) == tables_spec(bytes@, c0, table_count as nat).0,
            tables_spec(bytes@, c0, k as nat) == (
                Ok::<Seq<TableView>, StorageErrorView>(tables_of(database@)),
                cursor as int,
            ),
        decreases table_count - k,
    {
        let table = match read_table(bytes, &mut cursor) {
            Ok(table) => table,
            Err(e) => {
                proof {
                    lemma_tables_error_stays(bytes@, c0, (k + 1) as nat, table_count as nat);
                }
                return Err(e);
            },
        };
        let ghost before = database@;
        let ghost t = table@;
        proof {
            lemma_key_is_name(before, t.name);
        }
        match database.create_table(table) {
            Ok(()) => {
                assert(tables_of(database@) =~= tables_of(before).push(t));
            },
            Err(e) => {
                let m = create_error_message(&e);
                proof {
                    lemma_tables_error_stays(bytes@, c0, (k + 1) as nat, table_count as nat);
                }
                return Err(StorageError::Io(m));
            },
        }
        k = k + 1;
    }
    Ok(database)
}

} // verus!
