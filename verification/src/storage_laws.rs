//! What the storage format guarantees: whatever `serialize_database` writes,
//! `deserialize_database` reads back as the same tables.

use crate::database::{lemma_table_position_found, names_distinct, table_position};
use crate::storage::{
    bits_i64, encode_database, encode_row, encode_rows, encode_table, encode_tables, encode_text,
    encode_texts, encode_value, encode_values, decode_database, i64_bits, le_bytes, le_value,
    magic, number_spec, row_spec, rows_spec, table_spec, tables_spec, take_spec, text_spec,
    texts_spec, value_spec, values_spec, wrap32, StorageErrorView,
};
use crate::table::{rows_fit, TableView};
use crate::value::ValueView;
use vstd::prelude::*;
use vstd::utf8::{encode_utf8, encode_utf8_decode_utf8, encode_utf8_valid_utf8};

verus! {

/// The bytes of a text fit the 32-bit length field.
pub open spec fn text_fits(s: Seq<char>) -> bool {
    encode_utf8(s).len() < 0x1_0000_0000
}

/// A value can be stored without its length wrapping.
pub open spec fn value_fits(v: ValueView) -> bool {
    match v {
        ValueView::Integer(_) => true,
        ValueView::Text(s) => text_fits(s),
    }
}

/// A row can be stored without any count or length wrapping.
pub open spec fn row_fits(r: Seq<ValueView>) -> bool {
    &&& r.len() < 0x1_0000_0000
    &&& forall|i: int| 0 <= i < r.len() ==> value_fits(#[trigger] r[i])
}

/// A table can be stored and read back: no count or length wraps, and each
/// row has one value per column (as every table keeps).
pub open spec fn table_fits(t: TableView) -> bool {
    &&& within_limits(t)
    &&& rows_fit(t.columns, t.rows)
}

/// Every count and length of a table fits its 32-bit field.
pub open spec fn within_limits(t: TableView) -> bool {
    &&& text_fits(t.name)
    &&& t.columns.len() < 0x1_0000_0000
    &&& forall|i: int| 0 <= i < t.columns.len() ==> text_fits(#[trigger] t.columns[i])
    &&& t.rows.len() < 0x1_0000_0000
    &&& forall|i: int| 0 <= i < t.rows.len() ==> row_fits(#[trigger] t.rows[i])
}

/// A catalog can be stored and read back: at most 2^32 - 1 tables, each
/// storable, with distinct names.
pub open spec fn storable(ts: Seq<TableView>) -> bool {
    &&& ts.len() < 0x1_0000_0000
    &&& forall|i: int| 0 <= i < ts.len() ==> table_fits(#[trigger] ts[i])
    &&& names_distinct(ts)
}

/// `b` holds `x` at `c`, within a length a cursor can reach.
pub open spec fn holds_at(b: Seq<u8>, c: int, x: Seq<u8>) -> bool {
    &&& 0 <= c
    &&& c + x.len() <= b.len()
    &&& b.len() <= usize::MAX
    &&& b.subrange(c, c + x.len()) == x
}

/// Bytes held one after the other are each held.
pub proof fn lemma_holds_split(b: Seq<u8>, c: int, x: Seq<u8>, y: Seq<u8>)
    requires
        holds_at(b, c, x + y),
    ensures
        holds_at(b, c, x),
        holds_at(b, c + x.len(), y),
{
    let whole = b.subrange(c, c + (x + y).len());
    assert(whole == x + y);
    assert(b.subrange(c, c + x.len()) =~= whole.subrange(0, x.len() as int));
    assert(whole.subrange(0, x.len() as int) =~= x);
    assert(b.subrange(c + x.len(), c + x.len() + y.len()) =~= whole.subrange(
        x.len() as int,
        whole.len() as int,
    ));
    assert(whole.subrange(x.len() as int, whole.len() as int) =~= y);
}

/// Powers of 256.
pub open spec fn pow256(k: nat) -> nat
    decreases k,
{
    if k == 0 {
        1
    } else {
        256 * pow256((k - 1) as nat)
    }
}

/// The powers of 256 the format uses.
pub proof fn lemma_pow256_values()
    ensures
        pow256(2) == 0x1_0000,
        pow256(4) == 0x1_0000_0000,
        pow256(8) == 0x1_0000_0000_0000_0000,
{
    assert(pow256(0) == 1);
    assert(pow256(1) == 0x100);
    assert(pow256(2) == 0x1_0000);
    assert(pow256(3) == 0x100_0000);
    assert(pow256(4) == 0x1_0000_0000);
    assert(pow256(5) == 0x100_0000_0000);
    assert(pow256(6) == 0x1_0000_0000_0000);
    assert(pow256(7) == 0x100_0000_0000_0000);
    assert(pow256(8) == 0x1_0000_0000_0000_0000);
}

/// `k` little-endian bytes give back any number below 256^k.
pub proof fn lemma_le_round(n: nat, k: nat)
    requires
        n < pow256(k),
    ensures
        le_bytes(n, k).len() == k,
        le_value(le_bytes(n, k)) == n,
    decreases k,
{
    if k > 0 {
        let p = pow256((k - 1) as nat);
        assert(n / 256 < p) by (nonlinear_arith)
            requires
                n < 256 * p,
        ;
        assert(n == 256 * (n / 256) + n % 256) by (nonlinear_arith);
        lemma_le_round(n / 256, (k - 1) as nat);
        assert(le_bytes(n, k).drop_first() =~= le_bytes(n / 256, (k - 1) as nat));
    } else {
        assert(le_bytes(n, k) =~= Seq::<u8>::empty());
    }
}

/// A stored count is read back.
pub proof fn lemma_number_round(b: Seq<u8>, c: int, n: nat, k: nat)
    requires
        n < pow256(k),
        holds_at(b, c, le_bytes(n, k)),
    ensures
        number_spec(b, c, k as int) == (Ok::<nat, StorageErrorView>(n), c + k),
{
    lemma_le_round(n, k);
}

/// A stored text is read back.
pub proof fn lemma_text_round(b: Seq<u8>, c: int, s: Seq<char>)
    requires
        text_fits(s),
        holds_at(b, c, encode_text(s)),
    ensures
        text_spec(b, c) == (Ok::<Seq<char>, StorageErrorView>(s), c + encode_text(s).len()),
{
    let bytes = encode_utf8(s);
    lemma_pow256_values();
    vstd::arithmetic::div_mod::lemma_small_mod(bytes.len(), 0x1_0000_0000);
    assert(wrap32(bytes.len()) == bytes.len());
    lemma_holds_split(b, c, le_bytes(wrap32(bytes.len()), 4), bytes);
    lemma_number_round(b, c, bytes.len(), 4);
    lemma_le_round(bytes.len(), 4);
    assert(number_spec(b, c, 4) == (Ok::<nat, StorageErrorView>(bytes.len()), c + 4));
    assert(take_spec(b, c + 4, bytes.len() as int) == (Ok::<Seq<u8>, StorageErrorView>(bytes), c + 4 + bytes.len()));
    encode_utf8_valid_utf8(s);
    encode_utf8_decode_utf8(s);
}

/// A stored value is read back.
pub proof fn lemma_value_round(b: Seq<u8>, c: int, v: ValueView)
    requires
        value_fits(v),
        holds_at(b, c, encode_value(v)),
    ensures
        value_spec(b, c) == (Ok::<ValueView, StorageErrorView>(v), c + encode_value(v).len()),
{
    match v {
        ValueView::Integer(i) => {
            lemma_pow256_values();
            lemma_holds_split(b, c, seq![0u8], le_bytes(i64_bits(i), 8));
            lemma_number_round(b, c + 1, i64_bits(i), 8);
            lemma_le_round(i64_bits(i), 8);
            assert(b.subrange(c, c + 1) =~= seq![0u8]);
            assert(take_spec(b, c, 1) == (Ok::<Seq<u8>, StorageErrorView>(seq![0u8]), c + 1));
            assert(bits_i64(i64_bits(i)) == i);
            assert(number_spec(b, c + 1, 8) == (Ok::<nat, StorageErrorView>(i64_bits(i)), c + 9));
        },
        ValueView::Text(s) => {
            lemma_holds_split(b, c, seq![1u8], encode_text(s));
            assert(b.subrange(c, c + 1) =~= seq![1u8]);
            lemma_text_round(b, c + 1, s);
        },
    }
}

/// Stored values are read back, in order.
pub proof fn lemma_values_round(b: Seq<u8>, c: int, vs: Seq<ValueView>)
    requires
        forall|i: int| 0 <= i < vs.len() ==> value_fits(#[trigger] vs[i]),
        holds_at(b, c, encode_values(vs)),
    ensures
        values_spec(b, c, vs.len()) == (
            Ok::<Seq<ValueView>, StorageErrorView>(vs),
            c + encode_values(vs).len(),
        ),
    decreases vs.len(),
{
    if vs.len() > 0 {
        let front = vs.drop_last();
        lemma_holds_split(b, c, encode_values(front), encode_value(vs.last()));
        assert forall|i: int| 0 <= i < front.len() implies value_fits(#[trigger] front[i]) by {
            assert(front[i] == vs[i]);
        }
        lemma_values_round(b, c, front);
        lemma_value_round(b, c + encode_values(front).len(), vs.last());
        assert(front.push(vs.last()) =~= vs);
    } else {
        assert(vs =~= Seq::<ValueView>::empty());
    }
}

/// Stored texts are read back, in order.
pub proof fn lemma_texts_round(b: Seq<u8>, c: int, ts: Seq<Seq<char>>)
    requires
        forall|i: int| 0 <= i < ts.len() ==> text_fits(#[trigger] ts[i]),
        holds_at(b, c, encode_texts(ts)),
    ensures
        texts_spec(b, c, ts.len()) == (
            Ok::<Seq<Seq<char>>, StorageErrorView>(ts),
            c + encode_texts(ts).len(),
        ),
    decreases ts.len(),
{
    if ts.len() > 0 {
        let front = ts.drop_last();
        lemma_holds_split(b, c, encode_texts(front), encode_text(ts.last()));
        assert forall|i: int| 0 <= i < front.len() implies text_fits(#[trigger] front[i]) by {
            assert(front[i] == ts[i]);
        }
        lemma_texts_round(b, c, front);
        lemma_text_round(b, c + encode_texts(front).len(), ts.last());
        assert(front.push(ts.last()) =~= ts);
    } else {
        assert(ts =~= Seq::<Seq<char>>::empty());
    }
}

/// A stored row is read back.
pub proof fn lemma_row_round(b: Seq<u8>, c: int, r: Seq<ValueView>)
    requires
        row_fits(r),
        holds_at(b, c, encode_row(r)),
    ensures
        row_spec(b, c) == (Ok::<Seq<ValueView>, StorageErrorView>(r), c + encode_row(r).len()),
{
    lemma_pow256_values();
    vstd::arithmetic::div_mod::lemma_small_mod(r.len(), 0x1_0000_0000);
    lemma_holds_split(b, c, le_bytes(wrap32(r.len()), 4), encode_values(r));
    lemma_number_round(b, c, r.len(), 4);
    lemma_le_round(r.len(), 4);
    lemma_values_round(b, c + 4, r);
}

/// Stored rows of the right length are read back, in order.
pub proof fn lemma_rows_round(b: Seq<u8>, c: int, rs: Seq<Seq<ValueView>>, columns: Seq<Seq<char>>)
    requires
        forall|i: int| 0 <= i < rs.len() ==> row_fits(#[trigger] rs[i]),
        rows_fit(columns, rs),
        holds_at(b, c, encode_rows(rs)),
    ensures
        rows_spec(b, c, rs.len(), columns) == (
            Ok::<Seq<Seq<ValueView>>, StorageErrorView>(rs),
            c + encode_rows(rs).len(),
        ),
    decreases rs.len(),
{
    if rs.len() > 0 {
        let front = rs.drop_last();
        lemma_holds_split(b, c, encode_rows(front), encode_row(rs.last()));
        assert forall|i: int| 0 <= i < front.len() implies row_fits(#[trigger] front[i])
            && front[i].len() == columns.len() by {
            assert(front[i] == rs[i]);
        }
        lemma_rows_round(b, c, front, columns);
        assert(rs.last() == rs[rs.len() - 1]);
        lemma_row_round(b, c + encode_rows(front).len(), rs.last());
        assert(front.push(rs.last()) =~= rs);
    } else {
        assert(rs =~= Seq::<Seq<ValueView>>::empty());
    }
}

/// A stored table is read back.
pub proof fn lemma_table_round(b: Seq<u8>, c: int, t: TableView)
    requires
        table_fits(t),
        holds_at(b, c, encode_table(t)),
    ensures
        table_spec(b, c) == (Ok::<TableView, StorageErrorView>(t), c + encode_table(t).len()),
{
    lemma_pow256_values();
    let name = encode_text(t.name);
    let ncols = le_bytes(wrap32(t.columns.len()), 4);
    let cols = encode_texts(t.columns);
    let nrows = le_bytes(wrap32(t.rows.len()), 4);
    let rows = encode_rows(t.rows);
    assert(encode_table(t) == name + ncols + cols + nrows + rows);
    lemma_holds_split(b, c, name + ncols + cols + nrows, rows);
    lemma_holds_split(b, c, name + ncols + cols, nrows);
    lemma_holds_split(b, c, name + ncols, cols);
    lemma_holds_split(b, c, name, ncols);
    let c1 = c + name.len();
    let c2 = c1 + 4;
    let c3 = c2 + cols.len();
    let c4 = c3 + 4;
    lemma_text_round(b, c, t.name);
    vstd::arithmetic::div_mod::lemma_small_mod(t.columns.len(), 0x1_0000_0000);
    vstd::arithmetic::div_mod::lemma_small_mod(t.rows.len(), 0x1_0000_0000);
    lemma_le_round(t.columns.len(), 4);
    lemma_le_round(t.rows.len(), 4);
    lemma_number_round(b, c1, t.columns.len(), 4);
    lemma_texts_round(b, c2, t.columns);
    lemma_number_round(b, c3, t.rows.len(), 4);
    lemma_rows_round(b, c4, t.rows, t.columns);
}

/// A table whose name no table of `ts` has is not found in `ts`.
pub proof fn lemma_no_table_position(ts: Seq<TableView>, name: Seq<char>)
    requires
        forall|i: int| 0 <= i < ts.len() ==> #[trigger] ts[i].name != name,
    ensures
        table_position(ts, name) is None,
{
    lemma_table_position_found(ts, name);
}

/// Stored tables with distinct names are read back, in order.
pub proof fn lemma_tables_round(b: Seq<u8>, c: int, ts: Seq<TableView>)
    requires
        forall|i: int| 0 <= i < ts.len() ==> table_fits(#[trigger] ts[i]),
        names_distinct(ts),
        holds_at(b, c, encode_tables(ts)),
    ensures
        tables_spec(b, c, ts.len()) == (
            Ok::<Seq<TableView>, StorageErrorView>(ts),
            c + encode_tables(ts).len(),
        ),
    decreases ts.len(),
{
    if ts.len() > 0 {
        let front = ts.drop_last();
        let last = ts.last();
        lemma_holds_split(b, c, encode_tables(front), encode_table(last));
        assert forall|i: int| 0 <= i < front.len() implies table_fits(#[trigger] front[i]) by {
            assert(front[i] == ts[i]);
        }
        assert forall|i: int, j: int|
            0 <= i < front.len() && 0 <= j < front.len() && i != j implies #[trigger] front[i].name
            != #[trigger] front[j].name by {
            assert(front[i] == ts[i]);
            assert(front[j] == ts[j]);
        }
        lemma_tables_round(b, c, front);
        assert(last == ts[ts.len() - 1]);
        lemma_table_round(b, c + encode_tables(front).len(), last);
        assert forall|i: int| 0 <= i < front.len() implies #[trigger] front[i].name != last.name by {
            assert(front[i] == ts[i]);
        }
        lemma_no_table_position(front, last.name);
        assert(front.push(last) =~= ts);
    } else {
        assert(ts =~= Seq::<TableView>::empty());
    }
}

/// The header of a stored database is read back.
pub proof fn lemma_header_round(b: Seq<u8>, n: nat, body: Seq<u8>)
    requires
        b == magic() + le_bytes(1, 2) + le_bytes(wrap32(n), 4) + body,
        n < 0x1_0000_0000,
        b.len() <= usize::MAX,
    ensures
        take_spec(b, 0, 4) == (Ok::<Seq<u8>, StorageErrorView>(magic()), 4int),
        number_spec(b, 4, 2) == (Ok::<nat, StorageErrorView>(1), 6int),
        number_spec(b, 6, 4) == (Ok::<nat, StorageErrorView>(n), 10int),
        holds_at(b, 10, body),
{
    lemma_pow256_values();
    let head = magic() + le_bytes(1, 2);
    let count = le_bytes(wrap32(n), 4);
    assert(b.subrange(0, b.len() as int) =~= b);
    lemma_le_round(1, 2);
    vstd::arithmetic::div_mod::lemma_small_mod(n, 0x1_0000_0000);
    lemma_le_round(n, 4);
    lemma_holds_split(b, 0, head + count, body);
    lemma_holds_split(b, 0, head, count);
    lemma_holds_split(b, 0, magic(), le_bytes(1, 2));
    lemma_number_round(b, 4, 1, 2);
    lemma_number_round(b, 6, n, 4);
}

/// Reading back what `serialize_database` writes gives the same tables, in
/// the same order, whenever every count and length fits its 32-bit field,
/// the table names are distinct and each row has one value per column.
pub proof fn lemma_database_round_trip(ts: Seq<TableView>)
    requires
        storable(ts),
        encode_database(ts).len() <= usize::MAX,
    ensures
        decode_database(encode_database(ts)) == Ok::<Seq<TableView>, StorageErrorView>(ts),
{
    let b = encode_database(ts);
    lemma_header_round(b, ts.len(), encode_tables(ts));
    lemma_tables_round(b, 10, ts);
}

/// Numbers are stored least significant byte first: byte `i` of `k` stored
/// bytes of `n` is digit `i` of `n` in base 256.
pub proof fn lemma_le_bytes_digits(n: nat, k: nat)
    ensures
        le_bytes(n, k).len() == k,
        forall|i: int| 0 <= i < k ==> #[trigger] le_bytes(n, k)[i] as nat == (n / pow256(i as nat)) % 256,
    decreases k,
{
    if k > 0 {
        lemma_le_bytes_digits(n / 256, (k - 1) as nat);
        assert forall|i: int| 0 <= i < k implies #[trigger] le_bytes(n, k)[i] as nat == (n / pow256(
            i as nat,
        )) % 256 by {
            if i == 0 {
                assert(pow256(0) == 1);
            } else {
                assert(le_bytes(n, k)[i] == le_bytes(n / 256, (k - 1) as nat)[i - 1]);
                lemma_pow256_positive((i - 1) as nat);
                vstd::arithmetic::div_mod::lemma_div_denominator(n as int, 256, pow256((i - 1) as nat) as int);
                assert(pow256(i as nat) == 256 * pow256((i - 1) as nat));
            }
        }
    }
}

/// Powers of 256 are positive.
pub proof fn lemma_pow256_positive(k: nat)
    ensures
        pow256(k) > 0,
    decreases k,
{
    if k > 0 {
        lemma_pow256_positive((k - 1) as nat);
    }
}

/// A text is stored as four bytes holding the length of its UTF-8 form,
/// then that UTF-8 form.
pub proof fn lemma_text_layout(s: Seq<char>)
    ensures
        ({
            let e = encode_text(s);
            &&& e.len() == 4 + encode_utf8(s).len()
            &&& e.subrange(4, e.len() as int) == encode_utf8(s)
            &&& text_fits(s) ==> le_value(e.subrange(0, 4)) == encode_utf8(s).len()
        }),
{
    let e = encode_text(s);
    let n = wrap32(encode_utf8(s).len());
    lemma_pow256_values();
    vstd::arithmetic::div_mod::lemma_mod_bound(encode_utf8(s).len() as int, 0x1_0000_0000);
    lemma_le_round(n, 4);
    assert(e.subrange(0, 4) =~= le_bytes(n, 4));
    assert(e.subrange(4, e.len() as int) =~= encode_utf8(s));
    if text_fits(s) {
        vstd::arithmetic::div_mod::lemma_small_mod(encode_utf8(s).len(), 0x1_0000_0000);
    }
}

/// A value is stored as a tag byte, 0 for an integer and 1 for a text,
/// then the integer's two's-complement bits in eight bytes, or the text.
pub proof fn lemma_value_layout(v: ValueView)
    ensures
        ({
            let e = encode_value(v);
            match v {
                ValueView::Integer(i) => {
                    &&& e.len() == 9
                    &&& e[0] == 0u8
                    &&& le_value(e.subrange(1, 9)) == i64_bits(i)
                    &&& bits_i64(le_value(e.subrange(1, 9))) == i
                },
                ValueView::Text(s) => {
                    &&& e.len() == 1 + encode_text(s).len()
                    &&& e[0] == 1u8
                    &&& e.subrange(1, e.len() as int) == encode_text(s)
                },
            }
        }),
{
    let e = encode_value(v);
    lemma_pow256_values();
    match v {
        ValueView::Integer(i) => {
            lemma_le_round(i64_bits(i), 8);
            assert(e.subrange(1, 9) =~= le_bytes(i64_bits(i), 8));
        },
        ValueView::Text(s) => {
            assert(e.subrange(1, e.len() as int) =~= encode_text(s));
        },
    }
}

/// A table is stored as its name, then four bytes holding the number of
/// its columns, then each column name in order, then four bytes holding
/// the number of its rows, then each row in order.
pub proof fn lemma_table_layout(t: TableView)
    ensures
        ({
            let e = encode_table(t);
            let n = encode_text(t.name).len() as int;
            let k = encode_texts(t.columns).len() as int;
            &&& e.len() == n + 4 + k + 4 + encode_rows(t.rows).len()
            &&& e.subrange(0, n) == encode_text(t.name)
            &&& e.subrange(n, n + 4) == le_bytes(wrap32(t.columns.len()), 4)
            &&& e.subrange(n + 4, n + 4 + k) == encode_texts(t.columns)
            &&& e.subrange(n + 4 + k, n + 8 + k) == le_bytes(wrap32(t.rows.len()), 4)
            &&& e.subrange(n + 8 + k, e.len() as int) == encode_rows(t.rows)
            &&& t.columns.len() < 0x1_0000_0000 ==> le_value(e.subrange(n, n + 4))
                == t.columns.len()
            &&& t.rows.len() < 0x1_0000_0000 ==> le_value(e.subrange(n + 4 + k, n + 8 + k))
                == t.rows.len()
        }),
{
    let e = encode_table(t);
    let name = encode_text(t.name);
    let ncols = le_bytes(wrap32(t.columns.len()), 4);
    let cols = encode_texts(t.columns);
    let nrows = le_bytes(wrap32(t.rows.len()), 4);
    let rows = encode_rows(t.rows);
    lemma_pow256_values();
    vstd::arithmetic::div_mod::lemma_mod_bound(t.columns.len() as int, 0x1_0000_0000);
    vstd::arithmetic::div_mod::lemma_mod_bound(t.rows.len() as int, 0x1_0000_0000);
    lemma_le_round(wrap32(t.columns.len()), 4);
    lemma_le_round(wrap32(t.rows.len()), 4);
    let n = name.len() as int;
    let k = cols.len() as int;
    assert(e =~= name + ncols + cols + nrows + rows);
    assert(e.subrange(0, n) =~= name);
    assert(e.subrange(n, n + 4) =~= ncols);
    assert(e.subrange(n + 4, n + 4 + k) =~= cols);
    assert(e.subrange(n + 4 + k, n + 8 + k) =~= nrows);
    assert(e.subrange(n + 8 + k, e.len() as int) =~= rows);
    if t.columns.len() < 0x1_0000_0000 {
        vstd::arithmetic::div_mod::lemma_small_mod(t.columns.len(), 0x1_0000_0000);
    }
    if t.rows.len() < 0x1_0000_0000 {
        vstd::arithmetic::div_mod::lemma_small_mod(t.rows.len(), 0x1_0000_0000);
    }
}

/// A database is stored as the bytes "DBL1", the format version 1 in two
/// bytes, four bytes holding the number of tables, then each table in
/// order.
pub proof fn lemma_database_layout(ts: Seq<TableView>)
    ensures
        ({
            let e = encode_database(ts);
            &&& e.len() == 10 + encode_tables(ts).len()
            &&& e.subrange(0, 4) == seq![68u8, 66u8, 76u8, 49u8]
            &&& e[4] == 1u8 && e[5] == 0u8
            &&& e.subrange(10, e.len() as int) == encode_tables(ts)
            &&& ts.len() < 0x1_0000_0000 ==> le_value(e.subrange(6, 10)) == ts.len()
        }),
{
    let e = encode_database(ts);
    lemma_pow256_values();
    vstd::arithmetic::div_mod::lemma_mod_bound(ts.len() as int, 0x1_0000_0000);
    lemma_le_round(wrap32(ts.len()), 4);
    lemma_le_round(1, 2);
    lemma_le_bytes_digits(1, 2);
    assert(pow256(1) == 256);
    assert(e.subrange(0, 4) =~= seq![68u8, 66u8, 76u8, 49u8]);
    assert(e.subrange(6, 10) =~= le_bytes(wrap32(ts.len()), 4));
    assert(e.subrange(10, e.len() as int) =~= encode_tables(ts));
    assert(e[4] == le_bytes(1, 2)[0]);
    assert(e[5] == le_bytes(1, 2)[1]);
    if ts.len() < 0x1_0000_0000 {
        vstd::arithmetic::div_mod::lemma_small_mod(ts.len(), 0x1_0000_0000);
    }
}

/// Tables are stored one after another, in order: the stored form of a
/// catalog is that of its first tables followed by that of the rest.
pub proof fn lemma_tables_in_order(ts: Seq<TableView>, i: int)
    requires
        0 <= i <= ts.len(),
    ensures
        encode_tables(ts) == encode_tables(ts.take(i)) + encode_tables(ts.skip(i)),
    decreases ts.len(),
{
    if i == ts.len() {
        assert(ts.take(i) =~= ts);
        assert(ts.skip(i) =~= Seq::<TableView>::empty());
        assert(encode_tables(ts) + Seq::<u8>::empty() =~= encode_tables(ts));
    } else {
        let front = ts.drop_last();
        lemma_tables_in_order(front, i);
        assert(front.take(i) =~= ts.take(i));
        assert(front.skip(i) =~= ts.skip(i).drop_last());
        assert(ts.skip(i).last() == ts.last());
        assert(encode_tables(ts.skip(i)) == encode_tables(ts.skip(i).drop_last()) + encode_table(ts.skip(i).last()));
        assert(encode_tables(ts.take(i)) + (encode_tables(front.skip(i)) + encode_table(ts.last()))
            =~= (encode_tables(ts.take(i)) + encode_tables(front.skip(i))) + encode_table(ts.last()));
    }
}

/// A value whose tag byte is neither 0 nor 1 is refused for that tag.
pub proof fn lemma_bad_tag_refused(b: Seq<u8>, c: int)
    requires
        0 <= c < b.len(),
        b.len() <= usize::MAX,
        b[c] >= 2,
    ensures
        value_spec(b, c).0 == Err::<ValueView, StorageErrorView>(StorageErrorView::InvalidTag(b[c])),
{
    assert(b.subrange(c, c + 1)[0] == b[c]);
}

/// A text whose stored bytes are not UTF-8 is refused as such.
pub proof fn lemma_bad_utf8_refused(b: Seq<u8>, c: int, x: Seq<u8>)
    requires
        x.len() < 0x1_0000_0000,
        holds_at(b, c, le_bytes(x.len(), 4) + x),
        !vstd::utf8::valid_utf8(x),
    ensures
        text_spec(b, c).0 == Err::<Seq<char>, StorageErrorView>(StorageErrorView::InvalidUtf8),
{
    lemma_pow256_values();
    lemma_holds_split(b, c, le_bytes(x.len(), 4), x);
    lemma_number_round(b, c, x.len(), 4);
    lemma_le_round(x.len(), 4);
}

/// Bytes that do not open with "DBL1" are refused as not a database.
pub proof fn lemma_bad_magic_refused(b: Seq<u8>)
    requires
        4 <= b.len() <= usize::MAX,
        b.subrange(0, 4) != seq![68u8, 66u8, 76u8, 49u8],
    ensures
        decode_database(b) == Err::<Seq<TableView>, StorageErrorView>(
            StorageErrorView::Io("invalid magic"@),
        ),
{
}

} // verus!
