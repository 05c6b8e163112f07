//! Turns SQL text into tokens.

use crate::text::{
    byte_offset, chars_equal_str, chars_of, is_ascii_alpha, is_ascii_digit, is_whitespace,
    is_whitespace_char, lemma_byte_offset_step, push_char, string_from_chars, utf8_width,
};
use vstd::prelude::*;
use vstd::utf8::encode_utf8;

verus! {

/// Why a text could not be split into tokens. Positions are byte offsets
/// into the text.
#[derive(Debug, PartialEq, Eq)]
pub enum LexError {
    Unexpected { position: usize, character: char },
    UnterminatedString { position: usize },
}

impl Clone for LexError {
    fn clone(&self) -> (r: Self)
        ensures
            r == *self,
    {
        match self {
            LexError::Unexpected { position, character } => LexError::Unexpected {
                position: *position,
                character: *character,
            },
            LexError::UnterminatedString { position } => LexError::UnterminatedString {
                position: *position,
            },
        }
    }
}

/// A token of the SQL dialect.
#[derive(Debug, PartialEq, Eq)]
pub enum Token {
    Create,
    Table,
    Insert,
    Into,
    Values,
    Select,
    From,
    Int,
    Text,
    Identifier(String),
    Integer(i64),
    String(String),
    LeftParen,
    RightParen,
    Comma,
    Semicolon,
    Star,
}

/// The mathematical value of a token: texts are character sequences.
pub enum TokenView {
    Create,
    Table,
    Insert,
    Into,
    Values,
    Select,
    From,
    Int,
    Text,
    Identifier(Seq<char>),
    Integer(i64),
    String(Seq<char>),
    LeftParen,
    RightParen,
    Comma,
    Semicolon,
    Star,
}

impl View for Token {
    type V = TokenView;

    open spec fn view(&self) -> TokenView {
        match self {
            Token::Create => TokenView::Create,
            Token::Table => TokenView::Table,
            Token::Insert => TokenView::Insert,
            Token::Into => TokenView::Into,
            Token::Values => TokenView::Values,
            Token::Select => TokenView::Select,
            Token::From => TokenView::From,
            Token::Int => TokenView::Int,
            Token::Text => TokenView::Text,
            Token::Identifier(s) => TokenView::Identifier(s@),
            Token::Integer(i) => TokenView::Integer(*i),
            Token::String(s) => TokenView::String(s@),
            Token::LeftParen => TokenView::LeftParen,
            Token::RightParen => TokenView::RightParen,
            Token::Comma => TokenView::Comma,
            Token::Semicolon => TokenView::Semicolon,
            Token::Star => TokenView::Star,
        }
    }
}

impl DeepView for Token {
    type V = TokenView;

    open spec fn deep_view(&self) -> TokenView {
        self@
    }
}

impl Clone for Token {
    fn clone(&self) -> (r: Self)
        ensures
            r == *self,
    {
        match self {
            Token::Create => Token::Create,
            Token::Table => Token::Table,
            Token::Insert => Token::Insert,
            Token::Into => Token::Into,
            Token::Values => Token::Values,
            Token::Select => Token::Select,
            Token::From => Token::From,
            Token::Int => Token::Int,
            Token::Text => Token::Text,
            Token::Identifier(s) => Token::Identifier(s.clone()),
            Token::Integer(i) => Token::Integer(*i),
            Token::String(s) => Token::String(s.clone()),
            Token::LeftParen => Token::LeftParen,
            Token::RightParen => Token::RightParen,
            Token::Comma => Token::Comma,
            Token::Semicolon => Token::Semicolon,
            Token::Star => Token::Star,
        }
    }
}

impl Token {
    /// Tests whether two tokens are the same token with the same payload.
    pub fn same_as(&self, other: &Token) -> (r: bool)
        ensures
            r == (self@ == other@),
    {
        match (self, other) {
            (Token::Create, Token::Create) => true,
            (Token::Table, Token::Table) => true,
            (Token::Insert, Token::Insert) => true,
            (Token::Into, Token::Into) => true,
            (Token::Values, Token::Values) => true,
            (Token::Select, Token::Select) => true,
            (Token::From, Token::From) => true,
            (Token::Int, Token::Int) => true,
            (Token::Text, Token::Text) => true,
            (Token::Identifier(a), Token::Identifier(b)) => *a == *b,
            (Token::Integer(a), Token::Integer(b)) => *a == *b,
            (Token::String(a), Token::String(b)) => *a == *b,
            (Token::LeftParen, Token::LeftParen) => true,
            (Token::RightParen, Token::RightParen) => true,
            (Token::Comma, Token::Comma) => true,
            (Token::Semicolon, Token::Semicolon) => true,
            (Token::Star, Token::Star) => true,
            _ => false,
        }
    }
}

/// A character that may start a word.
pub open spec fn is_word_start(c: char) -> bool {
    is_ascii_alpha(c) || c == '_'
}

/// A character that may continue a word.
pub open spec fn is_word_char(c: char) -> bool {
    is_ascii_alpha(c) || is_ascii_digit(c) || c == '_'
}

/// The end of the run of word characters that starts at `j`.
pub open spec fn word_end(s: Seq<char>, j: int) -> int
    decreases s.len() - j,
{
    if 0 <= j < s.len() && is_word_char(s[j]) {
        word_end(s, j + 1)
    } else {
        j
    }
}

/// The end of the run of decimal digits that starts at `j`.
pub open spec fn digits_end(s: Seq<char>, j: int) -> int
    decreases s.len() - j,
{
    if 0 <= j < s.len() && is_ascii_digit(s[j]) {
        digits_end(s, j + 1)
    } else {
        j
    }
}

/// The position of the first quote at or after `j`, if there is one.
pub open spec fn quote_end(s: Seq<char>, j: int) -> Option<int>
    decreases s.len() - j,
{
    if j < 0 || j >= s.len() {
        None
    } else if s[j] == '\'' {
        Some(j)
    } else {
        quote_end(s, j + 1)
    }
}

/// The number a decimal digit stands for.
pub open spec fn digit_value(c: char) -> int {
    (c as int) - 48
}

/// The number that a sequence of decimal digits stands for.
pub open spec fn digits_value(d: Seq<char>) -> int
    decreases d.len(),
{
    if d.len() == 0 {
        0
    } else {
        digits_value(d.drop_last()) * 10 + digit_value(d.last())
    }
}

/// The upper-case form of an ASCII letter; other characters are unchanged.
pub open spec fn upper_char(c: char) -> char {
    if 'a' <= c && c <= 'z' {
        ((c as u32) - 32) as char
    } else {
        c
    }
}

/// The upper-case form of a word.
pub open spec fn upper_word(w: Seq<char>) -> Seq<char> {
    w.map_values(|c: char| upper_char(c))
}

/// The token for a word: a keyword, whatever its case, or an identifier.
pub open spec fn keyword_token(w: Seq<char>) -> TokenView {
    let u = upper_word(w);
    if u == "CREATE"@ {
        TokenView::Create
    } else if u == "TABLE"@ {
        TokenView::Table
    } else if u == "INSERT"@ {
        TokenView::Insert
    } else if u == "INTO"@ {
        TokenView::Into
    } else if u == "VALUES"@ {
        TokenView::Values
    } else if u == "SELECT"@ {
        TokenView::Select
    } else if u == "FROM"@ {
        TokenView::From
    } else if u == "INT"@ {
        TokenView::Int
    } else if u == "TEXT"@ {
        TokenView::Text
    } else {
        TokenView::Identifier(w)
    }
}

/// The token a punctuation character stands for.
pub open spec fn punctuation_token(c: char) -> Option<TokenView> {
    if c == '(' {
        Some(TokenView::LeftParen)
    } else if c == ')' {
        Some(TokenView::RightParen)
    } else if c == ',' {
        Some(TokenView::Comma)
    } else if c == ';' {
        Some(TokenView::Semicolon)
    } else if c == '*' {
        Some(TokenView::Star)
    } else {
        None
    }
}

/// Puts `front` before the tokens of a successful outcome; errors and the
/// undefined outcome are kept as they are.
pub open spec fn with_prefix(
    front: Seq<TokenView>,
    rest: Option<Result<Seq<TokenView>, LexError>>,
) -> Option<Result<Seq<TokenView>, LexError>> {
    match rest {
        Some(Ok(ts)) => Some(Ok(front + ts)),
        other => other,
    }
}

/// The outcome of lexing `s` from character `i` on. `None` stands for an
/// integer literal too large for `i64`, on which lexing does not return.
pub open spec fn lex_from(s: Seq<char>, i: int) -> Option<Result<Seq<TokenView>, LexError>>
    decreases s.len() - i,
{
    if i < 0 || i >= s.len() {
        Some(Ok(Seq::empty()))
    } else {
        let c = s[i];
        if is_whitespace_char(c) {
            lex_from(s, i + 1)
        } else if punctuation_token(c) is Some {
            with_prefix(seq![punctuation_token(c)->0], lex_from(s, i + 1))
        } else if c == '\'' {
            match quote_end(s, i + 1) {
                None => Some(
                    Err(LexError::UnterminatedString { position: byte_offset(s, i) as usize }),
                ),
                Some(j) => {
                    proof {
                        lemma_quote_end(s, i + 1);
                    }
                    with_prefix(
                        seq![TokenView::String(s.subrange(i + 1, j))],
                        lex_from(s, j + 1),
                    )
                },
            }
        } else if is_word_start(c) {
            let j = word_end(s, i + 1);
            proof {
                lemma_word_end(s, i + 1);
            }
            with_prefix(seq![keyword_token(s.subrange(i, j))], lex_from(s, j))
        } else if is_ascii_digit(c) {
            let j = digits_end(s, i + 1);
            proof {
                lemma_digits_end(s, i + 1);
            }
            let v = digits_value(s.subrange(i, j));
            if v > i64::MAX {
                None
            } else {
                with_prefix(seq![TokenView::Integer(v as i64)], lex_from(s, j))
            }
        } else {
            Some(
                Err(LexError::Unexpected { position: byte_offset(s, i) as usize, character: c }),
            )
        }
    }
}

/// Putting two groups of tokens in front, one after the other, is putting
/// their concatenation in front.
pub proof fn lemma_with_prefix_twice(
    a: Seq<TokenView>,
    b: Seq<TokenView>,
    rest: Option<Result<Seq<TokenView>, LexError>>,
)
    ensures
        with_prefix(a, with_prefix(b, rest)) == with_prefix(a + b, rest),
{
    if let Some(Ok(ts)) = rest {
        assert(a + (b + ts) =~= (a + b) + ts);
    }
}

/// The outcome of lexing a whole text.
pub open spec fn lex_spec(s: Seq<char>) -> Option<Result<Seq<TokenView>, LexError>> {
    lex_from(s, 0)
}

/// The view of a lexing result.
pub open spec fn lex_result_view(r: Result<Vec<Token>, LexError>) -> Result<
    Seq<TokenView>,
    LexError,
> {
    match r {
        Ok(ts) => Ok(ts.deep_view()),
        Err(e) => Err(e),
    }
}

/// The run of word characters from `j` ends within the text, after `j`.
pub proof fn lemma_word_end(s: Seq<char>, j: int)
    requires
        0 <= j <= s.len(),
    ensures
        j <= word_end(s, j) <= s.len(),
        forall|k: int| j <= k < word_end(s, j) ==> is_word_char(#[trigger] s[k]),
        word_end(s, j) < s.len() ==> !is_word_char(s[word_end(s, j)]),
    decreases s.len() - j,
{
    if j < s.len() && is_word_char(s[j]) {
        lemma_word_end(s, j + 1);
    }
}

/// The run of digits from `j` ends within the text, after `j`.
pub proof fn lemma_digits_end(s: Seq<char>, j: int)
    requires
        0 <= j <= s.len(),
    ensures
        j <= digits_end(s, j) <= s.len(),
        forall|k: int| j <= k < digits_end(s, j) ==> is_ascii_digit(#[trigger] s[k]),
        digits_end(s, j) < s.len() ==> !is_ascii_digit(s[digits_end(s, j)]),
    decreases s.len() - j,
{
    if j < s.len() && is_ascii_digit(s[j]) {
        lemma_digits_end(s, j + 1);
    }
}

/// A quote found from `j` on is the first one there.
pub proof fn lemma_quote_end(s: Seq<char>, j: int)
    requires
        0 <= j,
    ensures
        quote_end(s, j) matches Some(k) ==> j <= k < s.len() && s[k] == '\'' && forall|m: int|
            j <= m < k ==> #[trigger] s[m] != '\'',
        quote_end(s, j) is None ==> forall|m: int| j <= m < s.len() ==> #[trigger] s[m] != '\'',
    decreases s.len() - j,
{
    if j < s.len() && s[j] != '\'' {
        lemma_quote_end(s, j + 1);
    }
}

/// Decimal digits stand for a number that is not negative.
pub proof fn lemma_digits_value_nonneg(d: Seq<char>)
    requires
        forall|m: int| 0 <= m < d.len() ==> is_ascii_digit(#[trigger] d[m]),
    ensures
        digits_value(d) >= 0,
    decreases d.len(),
{
    if d.len() > 0 {
        assert(d.last() == d[d.len() - 1]);
        lemma_digits_value_nonneg(d.drop_last());
    }
}

/// The token for a word of the input.
fn keyword(word: &[char]) -> (t: Token)
    ensures
        t@ == keyword_token(word@),
{
    let mut upper: Vec<char> = Vec::new();
    let mut i: usize = 0;
    while i < word.len()
        invariant
            i <= word@.len(),
            upper@ == upper_word(word@).take(i as int),
        decreases word@.len() - i,
    {
        let c = word[i];
        let u = if 'a' <= c && c <= 'z' {
            ((c as u32 - 32) as u8) as char
        } else {
            c
        };
        assert(u == upper_char(c)) by {
            if 'a' <= c && c <= 'z' {
                assert(((c as u32 - 32) as u8) as char == ((c as u32) - 32) as char);
            }
        }
        upper.push(u);
        assert(upper_word(word@).take(i + 1) =~= upper_word(word@).take(i as int).push(u));
        i = i + 1;
    }
    assert(upper@ =~= upper_word(word@));
    let u = upper.as_slice();
    if chars_equal_str(u, "CREATE") {
        Token::Create
    } else if chars_equal_str(u, "TABLE") {
        Token::Table
    } else if chars_equal_str(u, "INSERT") {
        Token::Insert
    } else if chars_equal_str(u, "INTO") {
        Token::Into
    } else if chars_equal_str(u, "VALUES") {
        Token::Values
    } else if chars_equal_str(u, "SELECT") {
        Token::Select
    } else if chars_equal_str(u, "FROM") {
        Token::From
    } else if chars_equal_str(u, "INT") {
        Token::Int
    } else if chars_equal_str(u, "TEXT") {
        Token::Text
    } else {
        Token::Identifier(string_from_chars(word))
    }
}

/// Skips the run of word characters from `start`, with its byte offset.
fn scan_word(chars: &[char], start: usize, pos: usize) -> (r: (usize, usize))
    requires
        start <= chars@.len(),
        pos == byte_offset(chars@, start as int),
        encode_utf8(chars@).len() <= usize::MAX,
    ensures
        r.0 == word_end(chars@, start as int),
        r.1 == byte_offset(chars@, r.0 as int),
{
    let mut j = start;
    let mut p = pos;
    while j < chars.len() && (('a' <= chars[j] && chars[j] <= 'z') || ('A' <= chars[j] && chars[j]
        <= 'Z') || ('0' <= chars[j] && chars[j] <= '9') || chars[j] == '_')
        invariant
            start <= j <= chars@.len(),
            p == byte_offset(chars@, j as int),
            encode_utf8(chars@).len() <= usize::MAX,
            word_end(chars@, j as int) == word_end(chars@, start as int),
        decreases chars@.len() - j,
    {
        proof {
            lemma_byte_offset_step(chars@, j as int);
        }
        p = p + utf8_width(chars[j]);
        j = j + 1;
    }
    (j, p)
}

/// Reads the integer literal whose first digit is at `first`: the end of its
/// digits, the byte offset there, and its value when it fits in `i64`.
fn scan_number(chars: &[char], first: usize, pos: usize) -> (r: (usize, usize, Option<i64>))
    requires
        first < chars@.len(),
        is_ascii_digit(chars@[first as int]),
        pos == byte_offset(chars@, first as int),
        encode_utf8(chars@).len() <= usize::MAX,
    ensures
        r.0 == digits_end(chars@, first + 1),
        r.1 == byte_offset(chars@, r.0 as int),
        ({
            let v = digits_value(chars@.subrange(first as int, r.0 as int));
            if v > i64::MAX {
                r.2 is None
            } else {
                r.2 == Some(v as i64)
            }
        }),
{
    let ghost s = chars@;
    let mut j = first;
    let mut p = pos;
    let mut acc: i64 = 0;
    let mut overflow = false;
    proof {
        lemma_digits_end(s, first + 1);
        assert(s.subrange(first as int, first as int) =~= Seq::<char>::empty());
    }
    while j < chars.len() && '0' <= chars[j] && chars[j] <= '9'
        invariant
            first <= j <= chars@.len(),
            s == chars@,
            is_ascii_digit(s[first as int]),
            p == byte_offset(s, j as int),
            encode_utf8(s).len() <= usize::MAX,
            j > first ==> digits_end(s, j as int) == digits_end(s, first + 1),
            j == first ==> digits_end(s, first + 1) == digits_end(s, first as int + 1),
            forall|k: int| first <= k < j ==> is_ascii_digit(#[trigger] s[k]),
            !overflow ==> acc == digits_value(s.subrange(first as int, j as int)),
            overflow ==> digits_value(s.subrange(first as int, j as int)) > i64::MAX,
            acc >= 0,
        decreases chars@.len() - j,
    {
        let d: i64 = (chars[j] as u32 - 48) as i64;
        let ghost sub = s.subrange(first as int, j + 1);
        assert(sub.drop_last() =~= s.subrange(first as int, j as int));
        assert(sub.last() == s[j as int]);
        proof {
            assert forall|m: int| 0 <= m < sub.drop_last().len() implies is_ascii_digit(
                #[trigger] sub.drop_last()[m],
            ) by {
                assert(sub.drop_last()[m] == s[first + m]);
            }
            lemma_digits_value_nonneg(sub.drop_last());
        }
        if !overflow {
            if acc > (i64::MAX - d) / 10 {
                overflow = true;
            } else {
                acc = acc * 10 + d;
            }
        }
        proof {
            lemma_byte_offset_step(s, j as int);
        }
        p = p + utf8_width(chars[j]);
        j = j + 1;
    }
    proof {
        if j == first {
            assert(false);
        }
        let whole = s.subrange(first as int, j as int);
        assert forall|m: int| 0 <= m < whole.len() implies is_ascii_digit(#[trigger] whole[m]) by {
            assert(whole[m] == s[first + m]);
        }
    }
    if overflow {
        (j, p, None)
    } else {
        (j, p, Some(acc))
    }
}

/// Reads a quoted text whose first character is at `start`: the text, the
/// position after the closing quote and the byte offset there; `None` when
/// no closing quote follows.
fn string(chars: &[char], start: usize, pos: usize) -> (r: Option<(String, usize, usize)>)
    requires
        0 < start <= chars@.len(),
        pos == byte_offset(chars@, start as int),
        encode_utf8(chars@).len() <= usize::MAX,
    ensures
        match quote_end(chars@, start as int) {
            None => r is None,
            Some(k) => r matches Some((text, next, p)) && text@ == chars@.subrange(
                start as int,
                k,
            ) && next == k + 1 && p == byte_offset(chars@, k + 1),
        },
{
    let ghost s = chars@;
    let mut j = start;
    let mut p = pos;
    let mut text = String::new();
    proof {
        lemma_quote_end(s, start as int);
        assert(s.subrange(start as int, start as int) =~= Seq::<char>::empty());
    }
    while j < chars.len()
        invariant
            start <= j <= chars@.len(),
            s == chars@,
            p == byte_offset(s, j as int),
            encode_utf8(s).len() <= usize::MAX,
            quote_end(s, j as int) == quote_end(s, start as int),
            text@ == s.subrange(start as int, j as int),
        decreases chars@.len() - j,
    {
        let c = chars[j];
        proof {
            lemma_byte_offset_step(s, j as int);
        }
        p = p + utf8_width(c);
        if c == '\'' {
            return Some((text, j + 1, p));
        }
        push_char(&mut text, c);
        assert(s.subrange(start as int, j + 1) =~= s.subrange(start as int, j as int).push(c));
        j = j + 1;
    }
    None
}

/// Lexes `input`, reporting `None` where an integer literal does not fit in
/// `i64` (the case on which `lex` does not return).
pub fn try_lex(input: &str) -> (r: Option<Result<Vec<Token>, LexError>>)
    ensures
        r is None <==> lex_spec(input@) is None,
        r matches Some(res) ==> lex_spec(input@) == Some(lex_result_view(res)),
{
    let chars = chars_of(input);
    let total = input.as_bytes().len();
    let ghost s = input@;
    proof {
        assert(s.take(0) =~= Seq::<char>::empty());
        assert(encode_utf8(Seq::<char>::empty()) =~= Seq::<u8>::empty());
    }
    let mut tokens: Vec<Token> = Vec::new();
    let mut i: usize = 0;
    let mut pos: usize = 0;
    while i < chars.len()
        invariant
            chars@ == s,
            s == input@,
            total == encode_utf8(s).len(),
            i <= s.len(),
            pos == byte_offset(s, i as int),
            lex_spec(s) == with_prefix(tokens.deep_view(), lex_from(s, i as int)),
        decreases s.len() - i,
    {
        let c = chars[i];
        let ghost before = tokens.deep_view();
        proof {
            lemma_byte_offset_step(s, i as int);
            lemma_quote_end(s, i + 1);
            lemma_word_end(s, i + 1);
            lemma_digits_end(s, i + 1);
            lemma_with_prefix_twice(before, seq![punctuation_token(c)->0], lex_from(s, i + 1));
        }
        if is_whitespace(c) {
            pos = pos + utf8_width(c);
            i = i + 1;
        } else if c == '(' || c == ')' || c == ',' || c == ';' || c == '*' {
            let t = if c == '(' {
                Token::LeftParen
            } else if c == ')' {
                Token::RightParen
            } else if c == ',' {
                Token::Comma
            } else if c == ';' {
                Token::Semicolon
            } else {
                Token::Star
            };
            tokens.push(t);
            assert(tokens.deep_view() =~= before + seq![t@]);
            assert(before + seq![t@] + Seq::<TokenView>::empty() =~= before + seq![t@]);
            pos = pos + utf8_width(c);
            i = i + 1;
        } else if c == '\'' {
            let here = pos;
            pos = pos + utf8_width(c);
            match string(chars.as_slice(), i + 1, pos) {
                None => {
                    let e = LexError::UnterminatedString { position: here };
                    assert(lex_from(s, i as int) == Some(Err::<Seq<TokenView>, LexError>(e)));
                    return Some(Err(e));
                },
                Some((text, next, p)) => {
                    let t = Token::String(text);
                    proof {
                        lemma_with_prefix_twice(before, seq![t@], lex_from(s, next as int));
                    }
                    tokens.push(t);
                    assert(tokens.deep_view() =~= before + seq![t@]);
                    i = next;
                    pos = p;
                },
            }
        } else if ('a' <= c && c <= 'z') || ('A' <= c && c <= 'Z') || c == '_' {
            pos = pos + utf8_width(c);
            let (end, p) = scan_word(chars.as_slice(), i + 1, pos);
            proof {
                lemma_word_end(s, i + 1);
            }
            let t = keyword(slice_range(chars.as_slice(), i, end));
            proof {
                lemma_with_prefix_twice(before, seq![t@], lex_from(s, end as int));
            }
            tokens.push(t);
            assert(tokens.deep_view() =~= before + seq![t@]);
            i = end;
            pos = p;
        } else if '0' <= c && c <= '9' {
            let (end, p, value) = scan_number(chars.as_slice(), i, pos);
            match value {
                None => {
                    return None;
                },
                Some(v) => {
                    let t = Token::Integer(v);
                    proof {
                        lemma_with_prefix_twice(before, seq![t@], lex_from(s, end as int));
                    }
                    tokens.push(t);
                    assert(tokens.deep_view() =~= before + seq![t@]);
                    i = end;
                    pos = p;
                },
            }
        } else {
            let e = LexError::Unexpected { position: pos, character: c };
            assert(lex_from(s, i as int) == Some(Err::<Seq<TokenView>, LexError>(e)));
            return Some(Err(e));
        }
    }
    proof {
        assert(tokens.deep_view() + Seq::<TokenView>::empty() =~= tokens.deep_view());
    }
    Some(Ok(tokens))
}

/// Splits `input` into tokens.
pub fn lex(input: &str) -> (r: Result<Vec<Token>, LexError>)
    requires
        lex_spec(input@) is Some,
    ensures
        lex_spec(input@) == Some(lex_result_view(r)),
{
    match try_lex(input) {
        Some(r) => r,
        None => {
            assert(false);
            Err(LexError::UnterminatedString { position: 0 })
        },
    }
}

/// The part `[from, to)` of a slice.
fn slice_range(a: &[char], from: usize, to: usize) -> (r: &[char])
    requires
        from <= to <= a@.len(),
    ensures
        r@ == a@.subrange(from as int, to as int),
{
    &a[from..to]
}

} // verus!
