//! What the parser guarantees: a statement written out as tokens in the
//! dialect's own form is read back as the same statement.

use crate::lexer::{lex_spec, TokenView};
use crate::lexer_laws::{lemma_lex_concat, lemma_spelled_tokens_lex, spell_all, spellable};
use crate::parser::{
    command_of, command_value, is_command_shape, names_from, parse_spec, values_from, step, column_type_at, columns_at, create_table_at, identifier_at, insert_at, literal_at,
    more_identifiers, more_literals, projection_at, select_at, statement_of, ParseErrorView,
};
use crate::statement::{ColumnDefinitionView, ColumnType, ProjectionView, StatementView};
use crate::value::ValueView;
use vstd::prelude::*;

verus! {

/// The token that writes a literal value.
pub open spec fn literal_token(v: ValueView) -> TokenView {
    match v {
        ValueView::Integer(i) => TokenView::Integer(i),
        ValueView::Text(s) => TokenView::String(s),
    }
}

/// The token that writes a column type.
pub open spec fn type_token(t: ColumnType) -> TokenView {
    match t {
        ColumnType::Integer => TokenView::Int,
        ColumnType::Text => TokenView::Text,
    }
}

/// Literals, each preceded by a comma.
pub open spec fn comma_literals(vs: Seq<ValueView>) -> Seq<TokenView>
    decreases vs.len(),
{
    if vs.len() == 0 {
        Seq::empty()
    } else {
        seq![TokenView::Comma, literal_token(vs[0])] + comma_literals(vs.drop_first())
    }
}

/// Identifiers, each preceded by a comma.
pub open spec fn comma_identifiers(ns: Seq<Seq<char>>) -> Seq<TokenView>
    decreases ns.len(),
{
    if ns.len() == 0 {
        Seq::empty()
    } else {
        seq![TokenView::Comma, TokenView::Identifier(ns[0])] + comma_identifiers(ns.drop_first())
    }
}

/// Column declarations separated by commas.
pub open spec fn column_tokens(cs: Seq<ColumnDefinitionView>) -> Seq<TokenView>
    decreases cs.len(),
{
    if cs.len() == 0 {
        Seq::empty()
    } else {
        let first = seq![TokenView::Identifier(cs[0].name), type_token(cs[0].column_type)];
        if cs.len() == 1 {
            first
        } else {
            first + seq![TokenView::Comma] + column_tokens(cs.drop_first())
        }
    }
}

/// A statement written out as tokens.
pub open spec fn statement_tokens(st: StatementView) -> Seq<TokenView> {
    match st {
        StatementView::CreateTable { table_name, columns } => seq![
            TokenView::Create,
            TokenView::Table,
            TokenView::Identifier(table_name),
            TokenView::LeftParen,
        ] + column_tokens(columns) + seq![TokenView::RightParen, TokenView::Semicolon],
        StatementView::Insert { table_name, values } => seq![
            TokenView::Insert,
            TokenView::Into,
            TokenView::Identifier(table_name),
            TokenView::Values,
            TokenView::LeftParen,
            literal_token(values[0]),
        ] + comma_literals(values.drop_first()) + seq![TokenView::RightParen, TokenView::Semicolon],
        StatementView::Select { projection, table_name } => match projection {
            ProjectionView::All => seq![
                TokenView::Select,
                TokenView::Star,
                TokenView::From,
                TokenView::Identifier(table_name),
                TokenView::Semicolon,
            ],
            ProjectionView::Columns(names) => seq![
                TokenView::Select,
                TokenView::Identifier(names[0]),
            ] + comma_identifiers(names.drop_first()) + seq![
                TokenView::From,
                TokenView::Identifier(table_name),
                TokenView::Semicolon,
            ],
        },
    }
}

/// A statement the dialect can write: it declares at least one column,
/// inserts at least one value, or selects `*` or at least one column.
pub open spec fn writable(st: StatementView) -> bool {
    match st {
        StatementView::CreateTable { columns, .. } => columns.len() > 0,
        StatementView::Insert { values, .. } => values.len() > 0,
        StatementView::Select { projection, .. } => match projection {
            ProjectionView::All => true,
            ProjectionView::Columns(names) => names.len() > 0,
        },
    }
}

/// `toks` holds `x` from position `p` on.
pub open spec fn tokens_at(toks: Seq<TokenView>, p: int, x: Seq<TokenView>) -> bool {
    &&& 0 <= p
    &&& p + x.len() <= toks.len()
    &&& forall|i: int| 0 <= i < x.len() ==> #[trigger] toks[p + i] == x[i]
}

/// No comma stands at `p`.
pub open spec fn no_comma_at(toks: Seq<TokenView>, p: int) -> bool {
    !(0 <= p < toks.len() && toks[p] is Comma)
}

/// Literals written after commas are read back.
pub proof fn lemma_more_literals_round(toks: Seq<TokenView>, p: int, vs: Seq<ValueView>)
    requires
        tokens_at(toks, p, comma_literals(vs)),
        no_comma_at(toks, p + comma_literals(vs).len()),
    ensures
        comma_literals(vs).len() == 2 * vs.len(),
        more_literals(toks, p) == Ok::<(Seq<ValueView>, int), ParseErrorView>(
            (vs, p + 2 * vs.len()),
        ),
    decreases vs.len(),
{
    if vs.len() == 0 {
        assert(vs =~= Seq::<ValueView>::empty());
    } else {
        let head = seq![TokenView::Comma, literal_token(vs[0])];
        let rest = comma_literals(vs.drop_first());
        assert(toks[p + 0] == TokenView::Comma);
        assert(toks[p + 1] == literal_token(vs[0]));
        assert forall|i: int| 0 <= i < rest.len() implies #[trigger] toks[(p + 2) + i] == rest[i] by {
            assert(toks[p + (2 + i)] == (head + rest)[2 + i]);
        }
        lemma_more_literals_round(toks, p + 2, vs.drop_first());
        assert(literal_at(toks, p + 1) == Ok::<ValueView, ParseErrorView>(vs[0]));
        assert(seq![vs[0]] + vs.drop_first() =~= vs);
    }
}

/// Identifiers written after commas are read back.
pub proof fn lemma_more_identifiers_round(toks: Seq<TokenView>, p: int, ns: Seq<Seq<char>>)
    requires
        tokens_at(toks, p, comma_identifiers(ns)),
        no_comma_at(toks, p + comma_identifiers(ns).len()),
    ensures
        comma_identifiers(ns).len() == 2 * ns.len(),
        more_identifiers(toks, p) == Ok::<(Seq<Seq<char>>, int), ParseErrorView>(
            (ns, p + 2 * ns.len()),
        ),
    decreases ns.len(),
{
    if ns.len() == 0 {
        assert(ns =~= Seq::<Seq<char>>::empty());
    } else {
        let head = seq![TokenView::Comma, TokenView::Identifier(ns[0])];
        let rest = comma_identifiers(ns.drop_first());
        assert(toks[p + 0] == TokenView::Comma);
        assert(toks[p + 1] == TokenView::Identifier(ns[0]));
        assert forall|i: int| 0 <= i < rest.len() implies #[trigger] toks[(p + 2) + i] == rest[i] by {
            assert(toks[p + (2 + i)] == (head + rest)[2 + i]);
        }
        lemma_more_identifiers_round(toks, p + 2, ns.drop_first());
        assert(seq![ns[0]] + ns.drop_first() =~= ns);
    }
}

/// Column declarations written with commas between them are read back.
pub proof fn lemma_columns_round(toks: Seq<TokenView>, p: int, cs: Seq<ColumnDefinitionView>)
    requires
        cs.len() > 0,
        tokens_at(toks, p, column_tokens(cs)),
        no_comma_at(toks, p + column_tokens(cs).len()),
    ensures
        column_tokens(cs).len() == 3 * cs.len() - 1,
        columns_at(toks, p) == Ok::<(Seq<ColumnDefinitionView>, int), ParseErrorView>(
            (cs, p + 3 * cs.len() - 1),
        ),
    decreases cs.len(),
{
    let first = seq![TokenView::Identifier(cs[0].name), type_token(cs[0].column_type)];
    assert(toks[p + 0] == TokenView::Identifier(cs[0].name));
    assert(toks[p + 1] == type_token(cs[0].column_type));
    assert(identifier_at(toks, p) == Ok::<Seq<char>, ParseErrorView>(cs[0].name));
    assert(column_type_at(toks, p + 1) == Ok::<ColumnType, ParseErrorView>(cs[0].column_type));
    let c = ColumnDefinitionView { name: cs[0].name, column_type: cs[0].column_type };
    assert(c == cs[0]);
    if cs.len() == 1 {
        assert(seq![c] =~= cs);
    } else {
        let rest = column_tokens(cs.drop_first());
        let all = first + seq![TokenView::Comma] + rest;
        assert(toks[p + 2] == all[2]);
        assert forall|i: int| 0 <= i < rest.len() implies #[trigger] toks[(p + 3) + i] == rest[i] by {
            assert(toks[p + (3 + i)] == all[3 + i]);
        }
        lemma_columns_round(toks, p + 3, cs.drop_first());
        assert(seq![c] + cs.drop_first() =~= cs);
    }
}

/// A statement written out as tokens is read back as the same statement.
pub proof fn lemma_statement_round_trip(st: StatementView)
    requires
        writable(st),
    ensures
        statement_of(statement_tokens(st)) == Ok::<StatementView, ParseErrorView>(st),
{
    let toks = statement_tokens(st);
    match st {
        StatementView::CreateTable { table_name, columns } => {
            let front = seq![
                TokenView::Create,
                TokenView::Table,
                TokenView::Identifier(table_name),
                TokenView::LeftParen,
            ];
            let cols = column_tokens(columns);
            let back = seq![TokenView::RightParen, TokenView::Semicolon];
            assert(toks == front + cols + back);
            assert forall|i: int| 0 <= i < cols.len() implies #[trigger] toks[4 + i] == cols[i] by {
                assert(toks[4 + i] == (front + cols + back)[4 + i]);
            }
            let q: int = 4 + cols.len() as int;
            assert(toks[q] == TokenView::RightParen);
            assert(toks[q + 1] == TokenView::Semicolon);
            lemma_columns_round(toks, 4, columns);
            assert(create_table_at(toks, 1) == Ok::<(StatementView, int), ParseErrorView>(
                (st, q + 2),
            ));
        },
        StatementView::Insert { table_name, values } => {
            let front = seq![
                TokenView::Insert,
                TokenView::Into,
                TokenView::Identifier(table_name),
                TokenView::Values,
                TokenView::LeftParen,
                literal_token(values[0]),
            ];
            let lits = comma_literals(values.drop_first());
            let back = seq![TokenView::RightParen, TokenView::Semicolon];
            assert(toks == front + lits + back);
            assert forall|i: int| 0 <= i < lits.len() implies #[trigger] toks[6 + i] == lits[i] by {
                assert(toks[6 + i] == (front + lits + back)[6 + i]);
            }
            let q: int = 6 + lits.len() as int;
            assert(toks[q] == TokenView::RightParen);
            assert(toks[q + 1] == TokenView::Semicolon);
            lemma_more_literals_round(toks, 6, values.drop_first());
            assert(toks[5] == literal_token(values[0]));
            assert(literal_at(toks, 5) == Ok::<ValueView, ParseErrorView>(values[0]));
            assert(seq![values[0]] + values.drop_first() =~= values);
            assert(insert_at(toks, 1) == Ok::<(StatementView, int), ParseErrorView>((st, q + 2)));
        },
        StatementView::Select { projection, table_name } => {
            match projection {
                ProjectionView::All => {
                    assert(projection_at(toks, 1) == Ok::<(ProjectionView, int), ParseErrorView>(
                        (projection, 2),
                    ));
                    assert(select_at(toks, 1) == Ok::<(StatementView, int), ParseErrorView>(
                        (st, 5),
                    ));
                },
                ProjectionView::Columns(names) => {
                    let front = seq![TokenView::Select, TokenView::Identifier(names[0])];
                    let ids = comma_identifiers(names.drop_first());
                    let back = seq![
                        TokenView::From,
                        TokenView::Identifier(table_name),
                        TokenView::Semicolon,
                    ];
                    assert(toks == front + ids + back);
                    assert forall|i: int| 0 <= i < ids.len() implies #[trigger] toks[2 + i]
                        == ids[i] by {
                        assert(toks[2 + i] == (front + ids + back)[2 + i]);
                    }
                    let q: int = 2 + ids.len() as int;
                    assert(toks[q] == TokenView::From);
                    assert(toks[q + 1] == TokenView::Identifier(table_name));
                    assert(toks[q + 2] == TokenView::Semicolon);
                    lemma_more_identifiers_round(toks, 2, names.drop_first());
                    assert(seq![names[0]] + names.drop_first() =~= names);
                    assert(projection_at(toks, 1) == Ok::<(ProjectionView, int), ParseErrorView>(
                        (projection, q),
                    ));
                    assert(select_at(toks, 1) == Ok::<(StatementView, int), ParseErrorView>(
                        (st, q + 3),
                    ));
                },
            }
        },
    }
}

/// Where a cursor stands after `k` calls of `Cursor::next` from `p`.
pub open spec fn position_after(toks: Seq<TokenView>, p: int, k: nat) -> int
    decreases k,
{
    if k == 0 {
        p
    } else {
        step(toks, position_after(toks, p, (k - 1) as nat))
    }
}

/// Successive calls of `Cursor::next` on a new cursor walk the tokens in
/// order: before call `k + 1` the cursor stands at token `k` while there is
/// one (so that call and `peek` give it), and once the tokens are used up
/// it stays at the end, where `next` and `peek` give nothing.
pub proof fn lemma_cursor_walks_in_order(toks: Seq<TokenView>, k: nat)
    ensures
        k <= toks.len() ==> position_after(toks, 0, k) == k,
        k > toks.len() ==> position_after(toks, 0, k) == toks.len(),
        k < toks.len() ==> 0 <= position_after(toks, 0, k) < toks.len()
            && toks[position_after(toks, 0, k)] == toks[k as int],
        k >= toks.len() ==> !(0 <= position_after(toks, 0, k) < toks.len()),
    decreases k,
{
    if k > 0 {
        lemma_cursor_walks_in_order(toks, (k - 1) as nat);
    }
}


/// Where a list of literals stops inside `toks`, tokens added after `toks`
/// do not change how it reads.
pub proof fn lemma_more_literals_extended(toks: Seq<TokenView>, extra: Seq<TokenView>, p: int)
    requires
        match more_literals(toks, p) {
            Ok((_, q)) => q < toks.len(),
            Err(_) => false,
        },
    ensures
        more_literals(toks + extra, p) == more_literals(toks, p),
    decreases toks.len() - p,
{
    let u = toks + extra;
    if 0 <= p < toks.len() && toks[p] is Comma {
        assert(u[p] == toks[p]);
        assert(u[p + 1] == toks[p + 1]);
        lemma_more_literals_extended(toks, extra, p + 2);
    } else if 0 <= p {
        assert(u[p] == toks[p]);
    }
}

/// Where a list of identifiers stops inside `toks`, tokens added after
/// `toks` do not change how it reads.
pub proof fn lemma_more_identifiers_extended(toks: Seq<TokenView>, extra: Seq<TokenView>, p: int)
    requires
        match more_identifiers(toks, p) {
            Ok((_, q)) => q < toks.len(),
            Err(_) => false,
        },
    ensures
        more_identifiers(toks + extra, p) == more_identifiers(toks, p),
    decreases toks.len() - p,
{
    let u = toks + extra;
    if 0 <= p < toks.len() && toks[p] is Comma {
        assert(u[p] == toks[p]);
        assert(u[p + 1] == toks[p + 1]);
        lemma_more_identifiers_extended(toks, extra, p + 2);
    } else if 0 <= p {
        assert(u[p] == toks[p]);
    }
}

/// Where the column declarations stop inside `toks`, tokens added after
/// `toks` do not change how they read.
pub proof fn lemma_columns_extended(toks: Seq<TokenView>, extra: Seq<TokenView>, p: int)
    requires
        match columns_at(toks, p) {
            Ok((_, q)) => q < toks.len(),
            Err(_) => false,
        },
    ensures
        columns_at(toks + extra, p) == columns_at(toks, p),
    decreases toks.len() - p,
{
    let u = toks + extra;
    assert(u[p] == toks[p]);
    assert(u[p + 1] == toks[p + 1]);
    assert(u[p + 2] == toks[p + 2]);
    if 0 <= p + 2 < toks.len() && toks[p + 2] is Comma {
        lemma_columns_extended(toks, extra, p + 3);
    }
}

/// A statement that ends in a semicolon reads the same with tokens added
/// after it, and stops where they begin.
proof fn lemma_statement_body_extended(toks: Seq<TokenView>, extra: Seq<TokenView>)
    requires
        statement_of(toks) is Ok,
        toks.last() is Semicolon,
    ensures
        ({
            let body = match toks[0] {
                TokenView::Create => create_table_at(toks, 1),
                TokenView::Insert => insert_at(toks, 1),
                _ => select_at(toks, 1),
            };
            let longer = match toks[0] {
                TokenView::Create => create_table_at(toks + extra, 1),
                TokenView::Insert => insert_at(toks + extra, 1),
                _ => select_at(toks + extra, 1),
            };
            &&& longer == body
            &&& body matches Ok((_, q)) && q == toks.len()
        }),
{
    let u = toks + extra;
    assert forall|i: int| 0 <= i < toks.len() implies u[i] == toks[i] by {}
    match toks[0] {
        TokenView::Create => {
            let q = create_table_at(toks, 1)->Ok_0.1;
            let c = columns_at(toks, 4);
            lemma_columns_extended(toks, extra, 4);
            let cq = c->Ok_0.1;
            assert(u[cq] == toks[cq]);
            assert(cq + 1 < toks.len()) by {
                if cq + 1 >= toks.len() {
                    assert(toks.last() == toks[cq]);
                }
            }
            assert(u[cq + 1] == toks[cq + 1]);
        },
        TokenView::Insert => {
            lemma_more_literals_extended(toks, extra, 6);
            let mq = more_literals(toks, 6)->Ok_0.1;
            assert(u[mq] == toks[mq]);
            assert(u[mq + 1] == toks[mq + 1]);
        },
        _ => {
            if toks[1] is Star {
                assert(u[1] == toks[1]);
            } else {
                lemma_more_identifiers_extended(toks, extra, 2);
            }
            let pq = projection_at(toks, 1)->Ok_0.1;
            assert(u[pq] == toks[pq]);
            assert(u[pq + 1] == toks[pq + 1]);
            assert(u[pq + 2] == toks[pq + 2]);
        },
    }
}

/// A statement must take all the tokens: a statement that ends in a
/// semicolon, followed by any further tokens, is refused for the first of
/// them.
pub proof fn lemma_trailing_tokens_refused(toks: Seq<TokenView>, extra: Seq<TokenView>)
    requires
        statement_of(toks) is Ok,
        toks.last() is Semicolon,
        extra.len() > 0,
    ensures
        statement_of(toks + extra) == Err::<StatementView, ParseErrorView>(
            ParseErrorView::Trailing(extra[0]),
        ),
{
    let u = toks + extra;
    assert(u[0] == toks[0]);
    lemma_statement_body_extended(toks, extra);
    assert(u[toks.len() as int] == extra[0]);
}

/// The names of a short `create` that read to the end end with a name.
proof fn lemma_names_reach_end(toks: Seq<TokenView>, p: int)
    requires
        0 <= p < toks.len(),
        names_from(toks, p) is Ok,
    ensures
        toks.last() is Identifier,
    decreases toks.len() - p,
{
    if p + 1 < toks.len() {
        lemma_names_reach_end(toks, p + 1);
    }
}

/// The values of a short `insert` that read to the end end with a value.
proof fn lemma_values_reach_end(toks: Seq<TokenView>, p: int)
    requires
        0 <= p < toks.len(),
        values_from(toks, p) is Ok,
    ensures
        command_value(toks.last()) is Some,
    decreases toks.len() - p,
{
    if p + 1 < toks.len() {
        lemma_values_reach_end(toks, p + 1);
    }
}

/// A line must hold one statement: a text that parses to a statement
/// ending in a semicolon, followed by a space and a text that lexes to
/// some tokens, is refused for the first of those tokens.
pub proof fn lemma_trailing_text_refused(s: Seq<char>, extra: Seq<char>)
    requires
        parse_spec(s) matches Some(Ok(_)),
        lex_spec(s) matches Some(Ok(ts)) && ts.len() > 0 && ts.last() is Semicolon,
        lex_spec(extra) matches Some(Ok(te)) && te.len() > 0,
    ensures
        parse_spec(s + seq![' '] + extra) == Some(
            Err::<StatementView, ParseErrorView>(
                ParseErrorView::Trailing(lex_spec(extra)->0->Ok_0[0]),
            ),
        ),
{
    let ts = lex_spec(s)->0->Ok_0;
    let te = lex_spec(extra)->0->Ok_0;
    lemma_lex_concat(s, extra);
    if is_command_shape(ts) {
        assert(command_of(ts) is Ok);
        if ts.len() > 2 {
            if ts[0] is Create {
                lemma_names_reach_end(ts, 2);
            } else {
                lemma_values_reach_end(ts, 2);
            }
        } else {
            assert(ts.last() == ts[1]);
        }
        assert(false);
    }
    assert(statement_of(ts) is Ok);
    assert(ts.len() >= 2) by {
        if ts.len() == 1 {
            assert(ts[0] == ts.last());
        }
    }
    let u = ts + te;
    assert(u[0] == ts[0]);
    assert(u[1] == ts[1]);
    assert(!is_command_shape(u));
    lemma_trailing_tokens_refused(ts, te);
}

/// A statement written out as text, each token after a space, parses
/// back to the same statement: keywords, punctuation, numbers, quoted texts
/// and names all read as written.
pub proof fn lemma_written_statement_parses(st: StatementView)
    requires
        writable(st),
        forall|i: int|
            0 <= i < statement_tokens(st).len() ==> spellable(#[trigger] statement_tokens(st)[i]),
    ensures
        parse_spec(spell_all(statement_tokens(st))) == Some(
            Ok::<StatementView, ParseErrorView>(st),
        ),
{
    let toks = statement_tokens(st);
    lemma_spelled_tokens_lex(toks);
    lemma_statement_round_trip(st);
    assert(!is_command_shape(toks));
}

} // verus!
