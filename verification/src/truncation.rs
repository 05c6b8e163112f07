//! What the storage format guarantees of a cut image: any proper prefix of
//! what `serialize_database` writes is refused as ending too early, never
//! read as a smaller database.

use crate::database::names_distinct;
use crate::storage::{
    encode_database, encode_row, encode_rows, encode_table, encode_tables, encode_text,
    encode_texts, encode_value, encode_values, decode_database, i64_bits, le_bytes, magic,
    number_spec, row_spec, rows_spec, table_spec, tables_spec, take_spec, text_spec, texts_spec,
    value_spec, values_spec, wrap32, StorageErrorView,
};
use crate::storage_laws::{
    holds_at, lemma_holds_split, lemma_le_round, lemma_number_round, lemma_pow256_values,
    lemma_rows_round, lemma_tables_round, lemma_texts_round, lemma_text_round, lemma_value_round,
    lemma_values_round, pow256, row_fits, storable, table_fits, text_fits, value_fits,
};
use crate::table::{rows_fit, TableView};
use crate::value::ValueView;
use vstd::prelude::*;
use vstd::utf8::encode_utf8;

verus! {

/// `t` ends inside the bytes `x` that start at `c`: from `c` on it holds a
/// proper prefix of `x`, and a cursor could reach the end of `x`.
pub open spec fn cut_at(t: Seq<u8>, c: int, x: Seq<u8>) -> bool {
    &&& 0 <= c <= t.len() < c + x.len()
    &&& c + x.len() <= usize::MAX
    &&& t.subrange(c, t.len() as int) == x.subrange(0, t.len() - c)
}

/// Cut inside two runs of bytes, one after the other: either the cut falls
/// inside the first, or the first is whole and the cut falls inside the
/// second.
proof fn lemma_cut_split(t: Seq<u8>, c: int, x: Seq<u8>, y: Seq<u8>)
    requires
        cut_at(t, c, x + y),
    ensures
        t.len() < c + x.len() ==> cut_at(t, c, x),
        t.len() >= c + x.len() ==> holds_at(t, c, x) && cut_at(t, c + x.len(), y),
{
    let m = t.len() - c;
    let seen = t.subrange(c, t.len() as int);
    assert(seen == (x + y).subrange(0, m));
    if t.len() < c + x.len() {
        assert((x + y).subrange(0, m) =~= x.subrange(0, m));
    } else {
        assert(t.subrange(c, c + x.len()) =~= seen.subrange(0, x.len() as int));
        assert((x + y).subrange(0, m).subrange(0, x.len() as int) =~= x);
        assert(t.subrange(c + x.len(), t.len() as int) =~= seen.subrange(x.len() as int, m));
        assert((x + y).subrange(0, m).subrange(x.len() as int, m) =~= y.subrange(
            0,
            m - x.len(),
        ));
    }
}

/// Reading a number whose bytes are cut ends too early.
proof fn lemma_number_cut(t: Seq<u8>, c: int, n: nat, k: nat)
    requires
        n < pow256(k),
        cut_at(t, c, le_bytes(n, k)),
    ensures
        number_spec(t, c, k as int).0 == Err::<nat, StorageErrorView>(StorageErrorView::UnexpectedEof),
{
    lemma_le_round(n, k);
}

/// Reading a text whose bytes are cut ends too early.
proof fn lemma_text_cut(t: Seq<u8>, c: int, s: Seq<char>)
    requires
        text_fits(s),
        cut_at(t, c, encode_text(s)),
    ensures
        text_spec(t, c).0 == Err::<Seq<char>, StorageErrorView>(StorageErrorView::UnexpectedEof),
{
    let bytes = encode_utf8(s);
    lemma_pow256_values();
    vstd::arithmetic::div_mod::lemma_small_mod(bytes.len(), 0x1_0000_0000);
    assert(wrap32(bytes.len()) == bytes.len());
    lemma_le_round(bytes.len(), 4);
    lemma_cut_split(t, c, le_bytes(wrap32(bytes.len()), 4), bytes);
    if t.len() < c + 4 {
        lemma_number_cut(t, c, bytes.len(), 4);
    } else {
        lemma_number_round(t, c, bytes.len(), 4);
    }
}

/// Reading a value whose bytes are cut ends too early.
proof fn lemma_value_cut(t: Seq<u8>, c: int, v: ValueView)
    requires
        value_fits(v),
        cut_at(t, c, encode_value(v)),
    ensures
        value_spec(t, c).0 == Err::<ValueView, StorageErrorView>(StorageErrorView::UnexpectedEof),
{
    match v {
        ValueView::Integer(i) => {
            lemma_pow256_values();
            lemma_cut_split(t, c, seq![0u8], le_bytes(i64_bits(i), 8));
            if t.len() >= c + 1 {
                assert(t.subrange(c, c + 1) =~= seq![0u8]);
                assert(t.subrange(c, c + 1)[0] == 0u8);
                lemma_number_cut(t, c + 1, i64_bits(i), 8);
            }
        },
        ValueView::Text(s) => {
            lemma_cut_split(t, c, seq![1u8], encode_text(s));
            if t.len() >= c + 1 {
                assert(t.subrange(c, c + 1) =~= seq![1u8]);
                assert(t.subrange(c, c + 1)[0] == 1u8);
                lemma_text_cut(t, c + 1, s);
            }
        },
    }
}

/// Reading values whose bytes are cut ends too early.
proof fn lemma_values_cut(t: Seq<u8>, c: int, vs: Seq<ValueView>)
    requires
        forall|i: int| 0 <= i < vs.len() ==> value_fits(#[trigger] vs[i]),
        cut_at(t, c, encode_values(vs)),
    ensures
        values_spec(t, c, vs.len()).0 == Err::<Seq<ValueView>, StorageErrorView>(
            StorageErrorView::UnexpectedEof,
        ),
    decreases vs.len(),
{
    if vs.len() == 0 {
        assert(encode_values(vs).len() == 0);
    } else {
        let front = vs.drop_last();
        assert forall|i: int| 0 <= i < front.len() implies value_fits(#[trigger] front[i]) by {
            assert(front[i] == vs[i]);
        }
        lemma_cut_split(t, c, encode_values(front), encode_value(vs.last()));
        if t.len() < c + encode_values(front).len() {
            lemma_values_cut(t, c, front);
        } else {
            lemma_values_round(t, c, front);
            assert(vs.last() == vs[vs.len() - 1]);
            lemma_value_cut(t, c + encode_values(front).len(), vs.last());
        }
    }
}

/// Reading a row whose bytes are cut ends too early.
proof fn lemma_row_cut(t: Seq<u8>, c: int, r: Seq<ValueView>)
    requires
        row_fits(r),
        cut_at(t, c, encode_row(r)),
    ensures
        row_spec(t, c).0 == Err::<Seq<ValueView>, StorageErrorView>(StorageErrorView::UnexpectedEof),
{
    lemma_pow256_values();
    vstd::arithmetic::div_mod::lemma_small_mod(r.len(), 0x1_0000_0000);
    lemma_le_round(r.len(), 4);
    lemma_cut_split(t, c, le_bytes(wrap32(r.len()), 4), encode_values(r));
    if t.len() < c + 4 {
        lemma_number_cut(t, c, r.len(), 4);
    } else {
        lemma_number_round(t, c, r.len(), 4);
        lemma_values_cut(t, c + 4, r);
    }
}

/// Reading rows whose bytes are cut ends too early.
proof fn lemma_rows_cut(t: Seq<u8>, c: int, rs: Seq<Seq<ValueView>>, columns: Seq<Seq<char>>)
    requires
        forall|i: int| 0 <= i < rs.len() ==> row_fits(#[trigger] rs[i]),
        rows_fit(columns, rs),
        cut_at(t, c, encode_rows(rs)),
    ensures
        rows_spec(t, c, rs.len(), columns).0 == Err::<Seq<Seq<ValueView>>, StorageErrorView>(
            StorageErrorView::UnexpectedEof,
        ),
    decreases rs.len(),
{
    if rs.len() == 0 {
        assert(encode_rows(rs).len() == 0);
    } else {
        let front = rs.drop_last();
        assert forall|i: int| 0 <= i < front.len() implies row_fits(#[trigger] front[i])
            && front[i].len() == columns.len() by {
            assert(front[i] == rs[i]);
        }
        lemma_cut_split(t, c, encode_rows(front), encode_row(rs.last()));
        if t.len() < c + encode_rows(front).len() {
            lemma_rows_cut(t, c, front, columns);
        } else {
            lemma_rows_round(t, c, front, columns);
            assert(rs.last() == rs[rs.len() - 1]);
            lemma_row_cut(t, c + encode_rows(front).len(), rs.last());
        }
    }
}

/// Reading texts whose bytes are cut ends too early.
proof fn lemma_texts_cut(t: Seq<u8>, c: int, ts: Seq<Seq<char>>)
    requires
        forall|i: int| 0 <= i < ts.len() ==> text_fits(#[trigger] ts[i]),
        cut_at(t, c, encode_texts(ts)),
    ensures
        texts_spec(t, c, ts.len()).0 == Err::<Seq<Seq<char>>, StorageErrorView>(
            StorageErrorView::UnexpectedEof,
        ),
    decreases ts.len(),
{
    if ts.len() == 0 {
        assert(encode_texts(ts).len() == 0);
    } else {
        let front = ts.drop_last();
        assert forall|i: int| 0 <= i < front.len() implies text_fits(#[trigger] front[i]) by {
            assert(front[i] == ts[i]);
        }
        lemma_cut_split(t, c, encode_texts(front), encode_text(ts.last()));
        if t.len() < c + encode_texts(front).len() {
            lemma_texts_cut(t, c, front);
        } else {
            lemma_texts_round(t, c, front);
            assert(ts.last() == ts[ts.len() - 1]);
            lemma_text_cut(t, c + encode_texts(front).len(), ts.last());
        }
    }
}

/// Reading a table whose bytes are cut ends too early.
proof fn lemma_table_cut(b: Seq<u8>, c: int, t: TableView)
    requires
        table_fits(t),
        cut_at(b, c, encode_table(t)),
    ensures
        table_spec(b, c).0 == Err::<TableView, StorageErrorView>(StorageErrorView::UnexpectedEof),
{
    lemma_pow256_values();
    let name = encode_text(t.name);
    let ncols = le_bytes(wrap32(t.columns.len()), 4);
    let cols = encode_texts(t.columns);
    let nrows = le_bytes(wrap32(t.rows.len()), 4);
    let rows = encode_rows(t.rows);
    let p1 = name;
    let p2 = p1 + ncols;
    let p3 = p2 + cols;
    let p4 = p3 + nrows;
    assert(encode_table(t) == p4 + rows);
    let c1 = c + name.len();
    let c2 = c1 + 4;
    let c3 = c2 + cols.len();
    let c4 = c3 + 4;
    vstd::arithmetic::div_mod::lemma_small_mod(t.columns.len(), 0x1_0000_0000);
    vstd::arithmetic::div_mod::lemma_small_mod(t.rows.len(), 0x1_0000_0000);
    lemma_le_round(t.columns.len(), 4);
    lemma_le_round(t.rows.len(), 4);
    lemma_cut_split(b, c, p4, rows);
    if b.len() >= c + p4.len() {
        lemma_holds_split(b, c, p3, nrows);
        lemma_holds_split(b, c, p2, cols);
        lemma_holds_split(b, c, p1, ncols);
        lemma_text_round(b, c, t.name);
        lemma_number_round(b, c1, t.columns.len(), 4);
        lemma_texts_round(b, c2, t.columns);
        lemma_number_round(b, c3, t.rows.len(), 4);
        lemma_rows_cut(b, c4, t.rows, t.columns);
    } else {
        lemma_cut_split(b, c, p3, nrows);
        if b.len() >= c + p3.len() {
            lemma_holds_split(b, c, p2, cols);
            lemma_holds_split(b, c, p1, ncols);
            lemma_text_round(b, c, t.name);
            lemma_number_round(b, c1, t.columns.len(), 4);
            lemma_texts_round(b, c2, t.columns);
            lemma_number_cut(b, c3, t.rows.len(), 4);
        } else {
            lemma_cut_split(b, c, p2, cols);
            if b.len() >= c + p2.len() {
                lemma_holds_split(b, c, p1, ncols);
                lemma_text_round(b, c, t.name);
                lemma_number_round(b, c1, t.columns.len(), 4);
                lemma_texts_cut(b, c2, t.columns);
            } else {
                lemma_cut_split(b, c, p1, ncols);
                if b.len() >= c + p1.len() {
                    lemma_text_round(b, c, t.name);
                    lemma_number_cut(b, c1, t.columns.len(), 4);
                } else {
                    lemma_text_cut(b, c, t.name);
                }
            }
        }
    }
}

/// Reading tables whose bytes are cut ends too early.
proof fn lemma_tables_cut(b: Seq<u8>, c: int, ts: Seq<TableView>)
    requires
        forall|i: int| 0 <= i < ts.len() ==> table_fits(#[trigger] ts[i]),
        names_distinct(ts),
        cut_at(b, c, encode_tables(ts)),
    ensures
        tables_spec(b, c, ts.len()).0 == Err::<Seq<TableView>, StorageErrorView>(
            StorageErrorView::UnexpectedEof,
        ),
    decreases ts.len(),
{
    if ts.len() == 0 {
        assert(encode_tables(ts).len() == 0);
    } else {
        let front = ts.drop_last();
        let last = ts.last();
        assert forall|i: int| 0 <= i < front.len() implies table_fits(#[trigger] front[i]) by {
            assert(front[i] == ts[i]);
        }
        assert forall|i: int, j: int|
            0 <= i < front.len() && 0 <= j < front.len() && i != j implies #[trigger] front[i].name
            != #[trigger] front[j].name by {
            assert(front[i] == ts[i]);
            assert(front[j] == ts[j]);
        }
        lemma_cut_split(b, c, encode_tables(front), encode_table(last));
        if b.len() < c + encode_tables(front).len() {
            lemma_tables_cut(b, c, front);
        } else {
            lemma_tables_round(b, c, front);
            assert(last == ts[ts.len() - 1]);
            lemma_table_cut(b, c + encode_tables(front).len(), last);
        }
    }
}

/// A cut image is refused: every proper prefix of the bytes that
/// `serialize_database` writes for a storable catalog reads as ending too
/// early, never as a smaller database.
pub proof fn lemma_truncated_image_refused(ts: Seq<TableView>, k: int)
    requires
        storable(ts),
        encode_database(ts).len() <= usize::MAX,
        0 <= k < encode_database(ts).len(),
    ensures
        decode_database(encode_database(ts).take(k)) == Err::<Seq<TableView>, StorageErrorView>(
            StorageErrorView::UnexpectedEof,
        ),
{
    lemma_pow256_values();
    let b = encode_database(ts);
    let t = b.take(k);
    let head = magic() + le_bytes(1, 2);
    let count = le_bytes(wrap32(ts.len()), 4);
    let body = encode_tables(ts);
    assert(b == head + count + body);
    assert(t.subrange(0, t.len() as int) =~= b.subrange(0, k));
    assert(cut_at(t, 0, b));
    vstd::arithmetic::div_mod::lemma_small_mod(ts.len(), 0x1_0000_0000);
    lemma_le_round(1, 2);
    lemma_le_round(ts.len(), 4);
    lemma_cut_split(t, 0, head + count, body);
    if k >= 10 {
        lemma_holds_split(t, 0, head, count);
        lemma_holds_split(t, 0, magic(), le_bytes(1, 2));
        lemma_number_round(t, 4, 1, 2);
        lemma_number_round(t, 6, ts.len(), 4);
        lemma_tables_cut(t, 10, ts);
    } else {
        lemma_cut_split(t, 0, head, count);
        if k >= 6 {
            lemma_holds_split(t, 0, magic(), le_bytes(1, 2));
            lemma_number_round(t, 4, 1, 2);
            lemma_number_cut(t, 6, ts.len(), 4);
        } else {
            lemma_cut_split(t, 0, magic(), le_bytes(1, 2));
            if k >= 4 {
                lemma_number_cut(t, 4, 1, 2);
            }
        }
    }
}

} // verus!
