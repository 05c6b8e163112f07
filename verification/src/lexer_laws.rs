//! What the lexer guarantees of texts put together: whitespace only
//! separates tokens, so lexing two texts joined by a space gives the tokens
//! of the first followed by those of the second.

use crate::lexer::{
    is_word_char, is_word_start, keyword_token, upper_char, upper_word,
    digits_end, lex_from, lex_spec, lemma_digits_end, lemma_quote_end, lemma_word_end,
    quote_end, word_end, with_prefix, LexError, TokenView,
};
use crate::text::{decimal_nat, digit_char, is_ascii_alpha, is_ascii_digit, is_whitespace_char};
use vstd::prelude::*;

verus! {

/// Putting no tokens in front changes nothing.
pub proof fn lemma_with_prefix_empty(rest: Option<Result<Seq<TokenView>, LexError>>)
    ensures
        with_prefix(Seq::empty(), rest) == rest,
{
    if let Some(Ok(ts)) = rest {
        assert(Seq::<TokenView>::empty() + ts =~= ts);
    }
}

/// A run of word characters in `b` ends at the same place in `p + b`,
/// shifted by the length of `p`.
proof fn lemma_word_end_shift(p: Seq<char>, b: Seq<char>, j: int)
    requires
        0 <= j,
    ensures
        word_end(p + b, p.len() + j) == p.len() + word_end(b, j),
    decreases b.len() - j,
{
    let w = p + b;
    if j < b.len() {
        assert(w[p.len() + j] == b[j]);
        lemma_word_end_shift(p, b, j + 1);
    }
}

/// A run of digits in `b` ends at the same place in `p + b`, shifted by
/// the length of `p`.
proof fn lemma_digits_end_shift(p: Seq<char>, b: Seq<char>, j: int)
    requires
        0 <= j,
    ensures
        digits_end(p + b, p.len() + j) == p.len() + digits_end(b, j),
    decreases b.len() - j,
{
    let w = p + b;
    if j < b.len() {
        assert(w[p.len() + j] == b[j]);
        lemma_digits_end_shift(p, b, j + 1);
    }
}

/// A closing quote found in `b` is found in `p + b`, shifted by the length
/// of `p`.
proof fn lemma_quote_end_shift(p: Seq<char>, b: Seq<char>, j: int)
    requires
        0 <= j,
    ensures
        match quote_end(b, j) {
            Some(k) => quote_end(p + b, p.len() + j) == Some(p.len() + k),
            None => quote_end(p + b, p.len() + j) is None,
        },
    decreases b.len() - j,
{
    let w = p + b;
    if j < b.len() {
        assert(w[p.len() + j] == b[j]);
        lemma_quote_end_shift(p, b, j + 1);
    }
}

/// Text put in front does not change how the rest lexes, where the rest
/// lexes without error.
proof fn lemma_lex_suffix(p: Seq<char>, b: Seq<char>, j: int)
    requires
        0 <= j,
        lex_from(b, j) matches Some(Ok(_)),
    ensures
        lex_from(p + b, p.len() + j) == lex_from(b, j),
    decreases b.len() - j,
{
    let w = p + b;
    let o = p.len() as int;
    if j < b.len() {
        let c = b[j];
        assert(w[o + j] == c);
        if crate::text::is_whitespace_char(c) {
            lemma_lex_suffix(p, b, j + 1);
        } else if crate::lexer::punctuation_token(c) is Some {
            lemma_lex_suffix(p, b, j + 1);
        } else if c == '\'' {
            lemma_quote_end_shift(p, b, j + 1);
            lemma_quote_end(b, j + 1);
            let k = quote_end(b, j + 1)->0;
            assert(w.subrange(o + j + 1, o + k) =~= b.subrange(j + 1, k));
            lemma_lex_suffix(p, b, k + 1);
        } else if crate::lexer::is_word_start(c) {
            lemma_word_end_shift(p, b, j + 1);
            lemma_word_end(b, j + 1);
            let e = word_end(b, j + 1);
            assert(w.subrange(o + j, o + e) =~= b.subrange(j, e));
            lemma_lex_suffix(p, b, e);
        } else if crate::text::is_ascii_digit(c) {
            lemma_digits_end_shift(p, b, j + 1);
            lemma_digits_end(b, j + 1);
            let e = digits_end(b, j + 1);
            assert(w.subrange(o + j, o + e) =~= b.subrange(j, e));
            lemma_lex_suffix(p, b, e);
        }
    }
}

/// In a text `w` that continues `a` with a space, a run of word characters
/// of `a` ends where it ends in `a`.
proof fn lemma_word_end_prefix(a: Seq<char>, w: Seq<char>, j: int)
    requires
        0 <= j <= a.len() < w.len(),
        forall|k: int| 0 <= k < a.len() ==> w[k] == a[k],
        is_whitespace_char(w[a.len() as int]),
    ensures
        word_end(w, j) == word_end(a, j),
    decreases a.len() - j,
{
    if j < a.len() {
        lemma_word_end_prefix(a, w, j + 1);
    }
}

/// In a text `w` that continues `a` with a space, a run of digits of `a`
/// ends where it ends in `a`.
proof fn lemma_digits_end_prefix(a: Seq<char>, w: Seq<char>, j: int)
    requires
        0 <= j <= a.len() < w.len(),
        forall|k: int| 0 <= k < a.len() ==> w[k] == a[k],
        is_whitespace_char(w[a.len() as int]),
    ensures
        digits_end(w, j) == digits_end(a, j),
    decreases a.len() - j,
{
    if j < a.len() {
        lemma_digits_end_prefix(a, w, j + 1);
    }
}

/// A closing quote found in `a` is found at the same place in a text that
/// continues `a`.
proof fn lemma_quote_end_prefix(a: Seq<char>, w: Seq<char>, j: int)
    requires
        0 <= j,
        a.len() <= w.len(),
        forall|k: int| 0 <= k < a.len() ==> w[k] == a[k],
        quote_end(a, j) is Some,
    ensures
        quote_end(w, j) == quote_end(a, j),
    decreases a.len() - j,
{
    if j < a.len() && a[j] != '\'' {
        lemma_quote_end_prefix(a, w, j + 1);
    }
}

/// Where `a` lexes without error from `i` on, a text that continues `a`
/// with a space lexes from `i` to the tokens of `a`, followed by what it
/// lexes from the end of `a` on.
proof fn lemma_lex_prefix(a: Seq<char>, w: Seq<char>, i: int)
    requires
        0 <= i <= a.len() < w.len(),
        forall|k: int| 0 <= k < a.len() ==> w[k] == a[k],
        is_whitespace_char(w[a.len() as int]),
        lex_from(a, i) matches Some(Ok(_)),
    ensures
        lex_from(w, i) == with_prefix(lex_from(a, i)->0->Ok_0, lex_from(w, a.len() as int)),
    decreases a.len() - i,
{
    if i == a.len() {
        lemma_with_prefix_empty(lex_from(w, i));
    } else {
        let c = a[i];
        assert(w[i] == c);
        if crate::text::is_whitespace_char(c) {
            lemma_lex_prefix(a, w, i + 1);
        } else if crate::lexer::punctuation_token(c) is Some {
            lemma_lex_prefix(a, w, i + 1);
            crate::lexer::lemma_with_prefix_twice(
                seq![crate::lexer::punctuation_token(c)->0],
                lex_from(a, i + 1)->0->Ok_0,
                lex_from(w, a.len() as int),
            );
        } else if c == '\'' {
            lemma_quote_end(a, i + 1);
            lemma_quote_end_prefix(a, w, i + 1);
            let k = quote_end(a, i + 1)->0;
            assert(w.subrange(i + 1, k) =~= a.subrange(i + 1, k));
            lemma_lex_prefix(a, w, k + 1);
            crate::lexer::lemma_with_prefix_twice(
                seq![TokenView::String(a.subrange(i + 1, k))],
                lex_from(a, k + 1)->0->Ok_0,
                lex_from(w, a.len() as int),
            );
        } else if crate::lexer::is_word_start(c) {
            lemma_word_end(a, i + 1);
            lemma_word_end_prefix(a, w, i + 1);
            let e = word_end(a, i + 1);
            assert(w.subrange(i, e) =~= a.subrange(i, e));
            lemma_lex_prefix(a, w, e);
            crate::lexer::lemma_with_prefix_twice(
                seq![crate::lexer::keyword_token(a.subrange(i, e))],
                lex_from(a, e)->0->Ok_0,
                lex_from(w, a.len() as int),
            );
        } else if crate::text::is_ascii_digit(c) {
            lemma_digits_end(a, i + 1);
            lemma_digits_end_prefix(a, w, i + 1);
            let e = digits_end(a, i + 1);
            assert(w.subrange(i, e) =~= a.subrange(i, e));
            lemma_lex_prefix(a, w, e);
            let v = crate::lexer::digits_value(a.subrange(i, e));
            crate::lexer::lemma_with_prefix_twice(
                seq![TokenView::Integer(v as i64)],
                lex_from(a, e)->0->Ok_0,
                lex_from(w, a.len() as int),
            );
        }
    }
}

/// A character that `char::is_whitespace` accepts: the ASCII tab, line
/// feed, vertical tab, form feed, carriage return and space, and the other
/// Unicode `White_Space` characters.
pub open spec fn unicode_white_space(c: char) -> bool {
    let u = c as u32;
    ||| u == 0x09 || u == 0x0A || u == 0x0B || u == 0x0C || u == 0x0D || u == 0x20
    ||| u == 0x85 || u == 0xA0 || u == 0x1680
    ||| 0x2000 <= u && u <= 0x200A
    ||| u == 0x2028 || u == 0x2029 || u == 0x202F || u == 0x205F || u == 0x3000
}

/// Whitespace only separates tokens: where two texts lex without error,
/// the two joined by any whitespace character lex to the tokens of the
/// first followed by those of the second.
pub proof fn lemma_lex_concat_whitespace(a: Seq<char>, c: char, b: Seq<char>)
    requires
        unicode_white_space(c),
        lex_spec(a) matches Some(Ok(_)),
        lex_spec(b) matches Some(Ok(_)),
    ensures
        lex_spec(a + seq![c] + b) == Some(
            Ok::<Seq<TokenView>, LexError>(lex_spec(a)->0->Ok_0 + lex_spec(b)->0->Ok_0),
        ),
{
    let p = a + seq![c];
    let w = p + b;
    lemma_lex_suffix(p, b, 0);
    assert(w[a.len() as int] == c);
    assert(is_whitespace_char(c));
    assert(lex_from(w, a.len() as int) == lex_from(w, p.len() as int));
    assert forall|k: int| 0 <= k < a.len() implies w[k] == a[k] by {}
    lemma_lex_prefix(a, w, 0);
}

/// Whitespace only separates tokens: where two texts lex without error,
/// the two joined by a space lex to the tokens of the first followed by
/// those of the second.
pub proof fn lemma_lex_concat(a: Seq<char>, b: Seq<char>)
    requires
        lex_spec(a) matches Some(Ok(_)),
        lex_spec(b) matches Some(Ok(_)),
    ensures
        lex_spec(a + seq![' '] + b) == Some(
            Ok::<Seq<TokenView>, LexError>(lex_spec(a)->0->Ok_0 + lex_spec(b)->0->Ok_0),
        ),
{
    lemma_lex_concat_whitespace(a, ' ', b);
}

/// `w` spells the upper-case word `k`, each of its letters in either case.
pub open spec fn spells_ignoring_case(w: Seq<char>, k: Seq<char>) -> bool {
    &&& w.len() == k.len()
    &&& forall|i: int|
        0 <= i < k.len() ==> (#[trigger] w[i] == k[i] || w[i] as u32 == k[i] as u32 + 32)
}

/// A word upper-cases to an upper-case word exactly when it spells that
/// word in any mix of cases.
proof fn lemma_upper_word_spells(w: Seq<char>, k: Seq<char>)
    requires
        forall|i: int| 0 <= i < k.len() ==> 'A' <= #[trigger] k[i] && k[i] <= 'Z',
    ensures
        (upper_word(w) == k) <==> spells_ignoring_case(w, k),
{
    if upper_word(w) == k {
        assert forall|i: int| 0 <= i < k.len() implies (#[trigger] w[i] == k[i] || w[i] as u32
            == k[i] as u32 + 32) by {
            assert(upper_word(w)[i] == upper_char(w[i]));
            if 'a' <= w[i] && w[i] <= 'z' {
                let x = ((w[i] as u32) - 32) as char;
                assert(x == k[i]);
                assert(x as u32 == (w[i] as u32) - 32);
            }
        }
    }
    if spells_ignoring_case(w, k) {
        assert forall|i: int| 0 <= i < k.len() implies #[trigger] upper_word(w)[i] == k[i] by {
            if w[i] != k[i] {
                assert(w[i] as u32 == k[i] as u32 + 32);
                assert(((w[i] as u32) - 32) as char == k[i]);
            }
        }
        assert(upper_word(w) =~= k);
    }
}

/// Keywords are read in any case: a word is a keyword token exactly when it
/// spells that keyword with each letter in either case, and any other word
/// is an identifier that keeps its spelling.
pub proof fn lemma_keywords_ignore_case(w: Seq<char>)
    ensures
        keyword_token(w) == TokenView::Create <==> spells_ignoring_case(w, "CREATE"@),
        keyword_token(w) == TokenView::Table <==> spells_ignoring_case(w, "TABLE"@),
        keyword_token(w) == TokenView::Insert <==> spells_ignoring_case(w, "INSERT"@),
        keyword_token(w) == TokenView::Into <==> spells_ignoring_case(w, "INTO"@),
        keyword_token(w) == TokenView::Values <==> spells_ignoring_case(w, "VALUES"@),
        keyword_token(w) == TokenView::Select <==> spells_ignoring_case(w, "SELECT"@),
        keyword_token(w) == TokenView::From <==> spells_ignoring_case(w, "FROM"@),
        keyword_token(w) == TokenView::Int <==> spells_ignoring_case(w, "INT"@),
        keyword_token(w) == TokenView::Text <==> spells_ignoring_case(w, "TEXT"@),
        !spells_ignoring_case(w, "CREATE"@) && !spells_ignoring_case(w, "TABLE"@)
            && !spells_ignoring_case(w, "INSERT"@) && !spells_ignoring_case(w, "INTO"@)
            && !spells_ignoring_case(w, "VALUES"@) && !spells_ignoring_case(w, "SELECT"@)
            && !spells_ignoring_case(w, "FROM"@) && !spells_ignoring_case(w, "INT"@)
            && !spells_ignoring_case(w, "TEXT"@) ==> keyword_token(w) == TokenView::Identifier(w),
{
    reveal_strlit("CREATE");
    reveal_strlit("TABLE");
    reveal_strlit("INSERT");
    reveal_strlit("INTO");
    reveal_strlit("VALUES");
    reveal_strlit("SELECT");
    reveal_strlit("FROM");
    reveal_strlit("INT");
    reveal_strlit("TEXT");
    assert("CREATE"@.len() != "TABLE"@.len());
    assert("CREATE"@ != "INSERT"@) by {
        assert("CREATE"@[0] != "INSERT"@[0]);
    }
    assert("CREATE"@.len() != "INTO"@.len());
    assert("CREATE"@ != "VALUES"@) by {
        assert("CREATE"@[0] != "VALUES"@[0]);
    }
    assert("CREATE"@ != "SELECT"@) by {
        assert("CREATE"@[0] != "SELECT"@[0]);
    }
    assert("CREATE"@.len() != "FROM"@.len());
    assert("CREATE"@.len() != "INT"@.len());
    assert("CREATE"@.len() != "TEXT"@.len());
    assert("TABLE"@.len() != "INSERT"@.len());
    assert("TABLE"@.len() != "INTO"@.len());
    assert("TABLE"@.len() != "VALUES"@.len());
    assert("TABLE"@.len() != "SELECT"@.len());
    assert("TABLE"@.len() != "FROM"@.len());
    assert("TABLE"@.len() != "INT"@.len());
    assert("TABLE"@.len() != "TEXT"@.len());
    assert("INSERT"@.len() != "INTO"@.len());
    assert("INSERT"@ != "VALUES"@) by {
        assert("INSERT"@[0] != "VALUES"@[0]);
    }
    assert("INSERT"@ != "SELECT"@) by {
        assert("INSERT"@[0] != "SELECT"@[0]);
    }
    assert("INSERT"@.len() != "FROM"@.len());
    assert("INSERT"@.len() != "INT"@.len());
    assert("INSERT"@.len() != "TEXT"@.len());
    assert("INTO"@.len() != "VALUES"@.len());
    assert("INTO"@.len() != "SELECT"@.len());
    assert("INTO"@ != "FROM"@) by {
        assert("INTO"@[0] != "FROM"@[0]);
    }
    assert("INTO"@.len() != "INT"@.len());
    assert("INTO"@ != "TEXT"@) by {
        assert("INTO"@[0] != "TEXT"@[0]);
    }
    assert("VALUES"@ != "SELECT"@) by {
        assert("VALUES"@[0] != "SELECT"@[0]);
    }
    assert("VALUES"@.len() != "FROM"@.len());
    assert("VALUES"@.len() != "INT"@.len());
    assert("VALUES"@.len() != "TEXT"@.len());
    assert("SELECT"@.len() != "FROM"@.len());
    assert("SELECT"@.len() != "INT"@.len());
    assert("SELECT"@.len() != "TEXT"@.len());
    assert("FROM"@.len() != "INT"@.len());
    assert("FROM"@ != "TEXT"@) by {
        assert("FROM"@[0] != "TEXT"@[0]);
    }
    assert("INT"@.len() != "TEXT"@.len());
    lemma_upper_word_spells(w, "CREATE"@);
    lemma_upper_word_spells(w, "TABLE"@);
    lemma_upper_word_spells(w, "INSERT"@);
    lemma_upper_word_spells(w, "INTO"@);
    lemma_upper_word_spells(w, "VALUES"@);
    lemma_upper_word_spells(w, "SELECT"@);
    lemma_upper_word_spells(w, "FROM"@);
    lemma_upper_word_spells(w, "INT"@);
    lemma_upper_word_spells(w, "TEXT"@);
}

/// The decimal notation of a number is all digits and stands for that
/// number.
proof fn lemma_decimal_digits(n: nat)
    ensures
        decimal_nat(n).len() > 0,
        forall|i: int| 0 <= i < decimal_nat(n).len() ==> is_ascii_digit(#[trigger] decimal_nat(n)[i]),
        crate::lexer::digits_value(decimal_nat(n)) == n,
    decreases n,
{
    if n >= 10 {
        lemma_decimal_digits(n / 10);
        let d = decimal_nat(n);
        assert(d.drop_last() =~= decimal_nat(n / 10));
        assert(d.last() == digit_char(n % 10));
        assert(d.last() as int == 48 + n % 10);
        assert(crate::lexer::digit_value(d.last()) == n % 10);
        assert(n == (n / 10) * 10 + n % 10) by (nonlinear_arith);
        assert(crate::lexer::digits_value(d) == crate::lexer::digits_value(d.drop_last()) * 10
            + crate::lexer::digit_value(d.last()));
        assert(crate::lexer::digits_value(d.drop_last()) == n / 10);
        assert(crate::lexer::digits_value(d) == (n / 10) * 10 + n % 10);
        assert forall|i: int| 0 <= i < d.len() implies is_ascii_digit(#[trigger] d[i]) by {
            if i < d.len() - 1 {
                assert(d[i] == decimal_nat(n / 10)[i]);
            }
        }
    } else {
        assert(decimal_nat(n)[0] == digit_char(n));
        assert(decimal_nat(n)[0] as int == 48 + n);
        assert(decimal_nat(n).drop_last() =~= Seq::<char>::empty());
        assert(crate::lexer::digit_value(decimal_nat(n).last()) == n);
        assert(crate::lexer::digits_value(Seq::<char>::empty()) == 0);
        assert(crate::lexer::digits_value(decimal_nat(n)) == crate::lexer::digits_value(
            decimal_nat(n).drop_last(),
        ) * 10 + crate::lexer::digit_value(decimal_nat(n).last()));
    }
}

/// A number written in decimal lexes to that integer, for every number an
/// `i64` holds.
pub proof fn lemma_decimal_lexes_to_its_value(n: nat)
    requires
        n <= i64::MAX,
    ensures
        lex_spec(decimal_nat(n)) == Some(
            Ok::<Seq<TokenView>, LexError>(seq![TokenView::Integer(n as i64)]),
        ),
{
    let d = decimal_nat(n);
    lemma_decimal_digits(n);
    lemma_digits_end(d, 1);
    assert(is_ascii_digit(d[0]));
    if digits_end(d, 1) < d.len() {
        assert(is_ascii_digit(d[digits_end(d, 1)]));
    }
    assert(digits_end(d, 1) == d.len());
    assert(d.subrange(0, d.len() as int) =~= d);
    assert(lex_from(d, d.len() as int) == Some(Ok::<Seq<TokenView>, LexError>(Seq::empty())));
    assert(seq![TokenView::Integer(n as i64)] + Seq::<TokenView>::empty() =~= seq![
        TokenView::Integer(n as i64),
    ]);
}

/// A text between single quotes, holding no quote itself, lexes to one
/// string token holding exactly that text.
pub proof fn lemma_quoted_text_lexes_to_itself(s: Seq<char>)
    requires
        forall|i: int| 0 <= i < s.len() ==> #[trigger] s[i] != '\'',
    ensures
        lex_spec(seq!['\''] + s + seq!['\'']) == Some(
            Ok::<Seq<TokenView>, LexError>(seq![TokenView::String(s)]),
        ),
{
    let w = seq!['\''] + s + seq!['\''];
    let m = s.len() as int;
    assert(w[0] == '\'');
    assert forall|i: int| 1 <= i < m + 1 implies #[trigger] w[i] != '\'' by {
        assert(w[i] == s[i - 1]);
    }
    assert(w[m + 1] == '\'');
    lemma_quote_end(w, 1);
    if let Some(k) = quote_end(w, 1) {
        if k < m + 1 {
            assert(w[k] != '\'');
        }
    } else {
        assert(w[m + 1] != '\'');
    }
    assert(quote_end(w, 1) == Some(m + 1));
    assert(w.subrange(1, m + 1) =~= s);
    assert(lex_from(w, m + 2) == Some(Ok::<Seq<TokenView>, LexError>(Seq::empty())));
    assert(seq![TokenView::String(s)] + Seq::<TokenView>::empty() =~= seq![TokenView::String(s)]);
}

/// `w` spells a keyword, each letter in either case.
pub open spec fn is_keyword_spelling(w: Seq<char>) -> bool {
    spells_ignoring_case(w, "CREATE"@) || spells_ignoring_case(w, "TABLE"@) || spells_ignoring_case(w, "INSERT"@) || spells_ignoring_case(w, "INTO"@) || spells_ignoring_case(w, "VALUES"@) || spells_ignoring_case(w, "SELECT"@) || spells_ignoring_case(w, "FROM"@) || spells_ignoring_case(w, "INT"@) || spells_ignoring_case(w, "TEXT"@)
}

/// A name the lexer reads as an identifier: a letter or underscore, then
/// letters, digits and underscores, and no keyword.
pub open spec fn is_name(w: Seq<char>) -> bool {
    &&& w.len() > 0
    &&& (is_ascii_alpha(w[0]) || w[0] == '_')
    &&& forall|i: int|
        0 <= i < w.len() ==> (is_ascii_alpha(#[trigger] w[i]) || is_ascii_digit(w[i]) || w[i] == '_')
    &&& !is_keyword_spelling(w)
}

/// How a token is written: keywords in capitals, punctuation as itself,
/// integers in decimal, texts between single quotes, identifiers as
/// themselves.
pub open spec fn spelling(t: TokenView) -> Seq<char> {
    match t {
        TokenView::Create => "CREATE"@,
        TokenView::Table => "TABLE"@,
        TokenView::Insert => "INSERT"@,
        TokenView::Into => "INTO"@,
        TokenView::Values => "VALUES"@,
        TokenView::Select => "SELECT"@,
        TokenView::From => "FROM"@,
        TokenView::Int => "INT"@,
        TokenView::Text => "TEXT"@,
        TokenView::LeftParen => "("@,
        TokenView::RightParen => ")"@,
        TokenView::Comma => ","@,
        TokenView::Semicolon => ";"@,
        TokenView::Star => "*"@,
        TokenView::Integer(i) => decimal_nat(i as nat),
        TokenView::String(s) => seq!['\''] + s + seq!['\''],
        TokenView::Identifier(w) => w,
    }
}

/// A token that its spelling writes: integers that are not negative,
/// texts without a quote, identifiers that are names.
pub open spec fn spellable(t: TokenView) -> bool {
    match t {
        TokenView::Integer(i) => i >= 0,
        TokenView::String(s) => forall|i: int| 0 <= i < s.len() ==> #[trigger] s[i] != '\'',
        TokenView::Identifier(w) => is_name(w),
        _ => true,
    }
}

/// Tokens written one after another, each after a space.
pub open spec fn spell_all(ts: Seq<TokenView>) -> Seq<char>
    decreases ts.len(),
{
    if ts.len() == 0 {
        Seq::empty()
    } else {
        spell_all(ts.drop_last()) + seq![' '] + spelling(ts.last())
    }
}

/// A word lexes to the one token of that word.
proof fn lemma_word_lexes(w: Seq<char>)
    requires
        w.len() > 0,
        is_word_start(w[0]),
        forall|i: int| 0 <= i < w.len() ==> is_word_char(#[trigger] w[i]),
    ensures
        lex_spec(w) == Some(Ok::<Seq<TokenView>, LexError>(seq![keyword_token(w)])),
{
    lemma_word_end(w, 1);
    if word_end(w, 1) < w.len() {
        assert(is_word_char(w[word_end(w, 1)]));
    }
    assert(w.subrange(0, w.len() as int) =~= w);
    assert(lex_from(w, w.len() as int) == Some(Ok::<Seq<TokenView>, LexError>(Seq::empty())));
    assert(seq![keyword_token(w)] + Seq::<TokenView>::empty() =~= seq![keyword_token(w)]);
}

/// Each token that its spelling writes lexes back from it.
pub proof fn lemma_spelling_lexes(t: TokenView)
    requires
        spellable(t),
    ensures
        lex_spec(spelling(t)) == Some(Ok::<Seq<TokenView>, LexError>(seq![t])),
{
    match t {
        TokenView::Create => {
            let w = "CREATE"@;
            reveal_strlit("CREATE");
            assert(w[0] == 'C');
            assert(w[1] == 'R');
            assert(w[2] == 'E');
            assert(w[3] == 'A');
            assert(w[4] == 'T');
            assert(w[5] == 'E');
            assert forall|i: int| 0 <= i < w.len() implies is_word_char(#[trigger] w[i]) by {}
            assert(spells_ignoring_case(w, "CREATE"@));
            lemma_keywords_ignore_case(w);
            lemma_word_lexes(w);
        },
        TokenView::Table => {
            let w = "TABLE"@;
            reveal_strlit("TABLE");
            assert(w[0] == 'T');
            assert(w[1] == 'A');
            assert(w[2] == 'B');
            assert(w[3] == 'L');
            assert(w[4] == 'E');
            assert forall|i: int| 0 <= i < w.len() implies is_word_char(#[trigger] w[i]) by {}
            assert(spells_ignoring_case(w, "TABLE"@));
            lemma_keywords_ignore_case(w);
            lemma_word_lexes(w);
        },
        TokenView::Insert => {
            let w = "INSERT"@;
            reveal_strlit("INSERT");
            assert(w[0] == 'I');
            assert(w[1] == 'N');
            assert(w[2] == 'S');
            assert(w[3] == 'E');
            assert(w[4] == 'R');
            assert(w[5] == 'T');
            assert forall|i: int| 0 <= i < w.len() implies is_word_char(#[trigger] w[i]) by {}
            assert(spells_ignoring_case(w, "INSERT"@));
            lemma_keywords_ignore_case(w);
            lemma_word_lexes(w);
        },
        TokenView::Into => {
            let w = "INTO"@;
            reveal_strlit("INTO");
            assert(w[0] == 'I');
            assert(w[1] == 'N');
            assert(w[2] == 'T');
            assert(w[3] == 'O');
            assert forall|i: int| 0 <= i < w.len() implies is_word_char(#[trigger] w[i]) by {}
            assert(spells_ignoring_case(w, "INTO"@));
            lemma_keywords_ignore_case(w);
            lemma_word_lexes(w);
        },
        TokenView::Values => {
            let w = "VALUES"@;
            reveal_strlit("VALUES");
            assert(w[0] == 'V');
            assert(w[1] == 'A');
            assert(w[2] == 'L');
            assert(w[3] == 'U');
            assert(w[4] == 'E');
            assert(w[5] == 'S');
            assert forall|i: int| 0 <= i < w.len() implies is_word_char(#[trigger] w[i]) by {}
            assert(spells_ignoring_case(w, "VALUES"@));
            lemma_keywords_ignore_case(w);
            lemma_word_lexes(w);
        },
        TokenView::Select => {
            let w = "SELECT"@;
            reveal_strlit("SELECT");
            assert(w[0] == 'S');
            assert(w[1] == 'E');
            assert(w[2] == 'L');
            assert(w[3] == 'E');
            assert(w[4] == 'C');
            assert(w[5] == 'T');
            assert forall|i: int| 0 <= i < w.len() implies is_word_char(#[trigger] w[i]) by {}
            assert(spells_ignoring_case(w, "SELECT"@));
            lemma_keywords_ignore_case(w);
            lemma_word_lexes(w);
        },
        TokenView::From => {
            let w = "FROM"@;
            reveal_strlit("FROM");
            assert(w[0] == 'F');
            assert(w[1] == 'R');
            assert(w[2] == 'O');
            assert(w[3] == 'M');
            assert forall|i: int| 0 <= i < w.len() implies is_word_char(#[trigger] w[i]) by {}
            assert(spells_ignoring_case(w, "FROM"@));
            lemma_keywords_ignore_case(w);
            lemma_word_lexes(w);
        },
        TokenView::Int => {
            let w = "INT"@;
            reveal_strlit("INT");
            assert(w[0] == 'I');
            assert(w[1] == 'N');
            assert(w[2] == 'T');
            assert forall|i: int| 0 <= i < w.len() implies is_word_char(#[trigger] w[i]) by {}
            assert(spells_ignoring_case(w, "INT"@));
            lemma_keywords_ignore_case(w);
            lemma_word_lexes(w);
        },
        TokenView::Text => {
            let w = "TEXT"@;
            reveal_strlit("TEXT");
            assert(w[0] == 'T');
            assert(w[1] == 'E');
            assert(w[2] == 'X');
            assert(w[3] == 'T');
            assert forall|i: int| 0 <= i < w.len() implies is_word_char(#[trigger] w[i]) by {}
            assert(spells_ignoring_case(w, "TEXT"@));
            lemma_keywords_ignore_case(w);
            lemma_word_lexes(w);
        },
        TokenView::LeftParen => {
            let w = "("@;
            reveal_strlit("(");
            assert(w[0] == '(');
            assert(lex_from(w, 1) == Some(Ok::<Seq<TokenView>, LexError>(Seq::empty())));
            assert(seq![TokenView::LeftParen] + Seq::<TokenView>::empty() =~= seq![TokenView::LeftParen]);
        },
        TokenView::RightParen => {
            let w = ")"@;
            reveal_strlit(")");
            assert(w[0] == ')');
            assert(lex_from(w, 1) == Some(Ok::<Seq<TokenView>, LexError>(Seq::empty())));
            assert(seq![TokenView::RightParen] + Seq::<TokenView>::empty() =~= seq![TokenView::RightParen]);
        },
        TokenView::Comma => {
            let w = ","@;
            reveal_strlit(",");
            assert(w[0] == ',');
            assert(lex_from(w, 1) == Some(Ok::<Seq<TokenView>, LexError>(Seq::empty())));
            assert(seq![TokenView::Comma] + Seq::<TokenView>::empty() =~= seq![TokenView::Comma]);
        },
        TokenView::Semicolon => {
            let w = ";"@;
            reveal_strlit(";");
            assert(w[0] == ';');
            assert(lex_from(w, 1) == Some(Ok::<Seq<TokenView>, LexError>(Seq::empty())));
            assert(seq![TokenView::Semicolon] + Seq::<TokenView>::empty() =~= seq![TokenView::Semicolon]);
        },
        TokenView::Star => {
            let w = "*"@;
            reveal_strlit("*");
            assert(w[0] == '*');
            assert(lex_from(w, 1) == Some(Ok::<Seq<TokenView>, LexError>(Seq::empty())));
            assert(seq![TokenView::Star] + Seq::<TokenView>::empty() =~= seq![TokenView::Star]);
        },
        TokenView::Integer(i) => {
            lemma_decimal_lexes_to_its_value(i as nat);
        },
        TokenView::String(s) => {
            lemma_quoted_text_lexes_to_itself(s);
        },
        TokenView::Identifier(w) => {
            lemma_keywords_ignore_case(w);
            lemma_word_lexes(w);
        },
    }
}

/// Tokens written out one after another, each after a space, lex back to
/// the same tokens.
pub proof fn lemma_spelled_tokens_lex(ts: Seq<TokenView>)
    requires
        forall|i: int| 0 <= i < ts.len() ==> spellable(#[trigger] ts[i]),
    ensures
        lex_spec(spell_all(ts)) == Some(Ok::<Seq<TokenView>, LexError>(ts)),
    decreases ts.len(),
{
    if ts.len() == 0 {
        assert(lex_from(Seq::<char>::empty(), 0) == Some(Ok::<Seq<TokenView>, LexError>(Seq::empty())));
        assert(ts =~= Seq::<TokenView>::empty());
        assert(spell_all(ts) =~= Seq::<char>::empty());
    } else {
        let front = ts.drop_last();
        assert forall|i: int| 0 <= i < front.len() implies spellable(#[trigger] front[i]) by {
            assert(front[i] == ts[i]);
        }
        lemma_spelled_tokens_lex(front);
        assert(spellable(ts[ts.len() - 1]));
        lemma_spelling_lexes(ts.last());
        lemma_lex_concat(spell_all(front), spelling(ts.last()));
        assert(front + seq![ts.last()] =~= ts);
    }
}

} // verus!
