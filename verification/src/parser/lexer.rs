//! Splits formula text into tokens.
use crate::text::chars_of;
use crate::text::string_of;
use vstd::prelude::*;

verus! {

/// One lexical unit of a formula.
#[derive(Debug, Clone, PartialEq)]
pub enum Token {
    Colon,
    Number(String),
    Op(char),
    Comma,
    Text(String),
    ID(String),
    Eof,
}

/// The mathematical content of a [`Token`].
pub enum TokenView {
    Colon,
    Number(Seq<char>),
    Op(char),
    Comma,
    Text(Seq<char>),
    ID(Seq<char>),
    Eof,
}

impl DeepView for Token {
    type V = TokenView;

    open spec fn deep_view(&self) -> TokenView {
        match self {
            Token::Colon => TokenView::Colon,
            Token::Number(s) => TokenView::Number(s@),
            Token::Op(c) => TokenView::Op(*c),
            Token::Comma => TokenView::Comma,
            Token::Text(s) => TokenView::Text(s@),
            Token::ID(s) => TokenView::ID(s@),
            Token::Eof => TokenView::Eof,
        }
    }
}

impl Token {
    /// A copy of the token.
    pub fn duplicate(&self) -> (t: Token)
        ensures
            t.deep_view() == self.deep_view(),
    {
        match self {
            Token::Colon => Token::Colon,
            Token::Number(s) => Token::Number(s.clone()),
            Token::Op(c) => Token::Op(*c),
            Token::Comma => Token::Comma,
            Token::Text(s) => Token::Text(s.clone()),
            Token::ID(s) => Token::ID(s.clone()),
            Token::Eof => Token::Eof,
        }
    }
}

/// Whether `c` may begin an identifier: a Latin letter or `_`.
pub open spec fn is_id_start(c: char) -> bool {
    ('A' <= c <= 'Z') || ('a' <= c <= 'z') || c == '_'
}

/// Whether `c` may stand inside an identifier.
pub open spec fn spec_is_id_char(c: char) -> bool {
    is_id_start(c) || crate::number::is_digit(c)
}

/// Whether `c` separates tokens without being one.
pub open spec fn is_space(c: char) -> bool {
    c == ' ' || c == '\t' || c == '\n' || c == '\r'
}

/// Whether `c` is one of the four arithmetic signs.
pub open spec fn is_sign(c: char) -> bool {
    c == '*' || c == '+' || c == '-' || c == '/'
}

/// The end of the run of digits that starts at `i`.
pub open spec fn digits_end(s: Seq<char>, i: int) -> int
    decreases s.len() - i,
{
    if 0 <= i < s.len() && crate::number::is_digit(s[i]) {
        digits_end(s, i + 1)
    } else {
        i
    }
}

/// The end of the run of identifier characters that starts at `i`.
pub open spec fn id_end(s: Seq<char>, i: int) -> int
    decreases s.len() - i,
{
    if 0 <= i < s.len() && spec_is_id_char(s[i]) {
        id_end(s, i + 1)
    } else {
        i
    }
}

/// The index of the first `"` at or after `i`, or the length of `s`.
pub open spec fn quote_end(s: Seq<char>, i: int) -> int
    decreases s.len() - i,
{
    if 0 <= i < s.len() && s[i] != '"' {
        quote_end(s, i + 1)
    } else {
        i
    }
}

/// `t` followed by the tokens of `rest`, if there are any.
pub open spec fn token_then(t: TokenView, rest: Option<Seq<TokenView>>) -> Option<Seq<TokenView>> {
    match rest {
        Some(ts) => Some(seq![t] + ts),
        None => None,
    }
}

/// A run of digits ends behind its start and inside the text.
pub proof fn lemma_digits_end_bounds(s: Seq<char>, i: int)
    requires
        0 <= i <= s.len(),
    ensures
        i <= digits_end(s, i) <= s.len(),
    decreases s.len() - i,
{
    if i < s.len() && crate::number::is_digit(s[i]) {
        lemma_digits_end_bounds(s, i + 1);
    }
}

/// A run of identifier characters ends behind its start and inside the
/// text.
pub proof fn lemma_id_end_bounds(s: Seq<char>, i: int)
    requires
        0 <= i <= s.len(),
    ensures
        i <= id_end(s, i) <= s.len(),
    decreases s.len() - i,
{
    if i < s.len() && spec_is_id_char(s[i]) {
        lemma_id_end_bounds(s, i + 1);
    }
}

/// A quoted text ends behind its start and inside the text.
pub proof fn lemma_quote_end_bounds(s: Seq<char>, i: int)
    requires
        0 <= i <= s.len(),
    ensures
        i <= quote_end(s, i) <= s.len(),
    decreases s.len() - i,
{
    if i < s.len() && s[i] != '"' {
        lemma_quote_end_bounds(s, i + 1);
    }
}

/// The tokens of `s` from index `i` on, closed by `Eof`; `None` where a
/// character begins no token.
///
/// A quoted text runs to the next `"`, or to the end of `s` where the quote
/// is never closed.
pub open spec fn lex_from(s: Seq<char>, i: int) -> Option<Seq<TokenView>>
    decreases s.len() - i,
{
    if i < 0 || i >= s.len() {
        Some(seq![TokenView::Eof])
    } else {
        let c = s[i];
        if crate::number::is_digit(c) {
            let j = digits_end(s, i + 1);
            proof {
                lemma_digits_end_bounds(s, i + 1);
            }
            token_then(TokenView::Number(s.subrange(i, j)), lex_from(s, j))
        } else if c == '(' || c == ')' || is_sign(c) {
            token_then(TokenView::Op(c), lex_from(s, i + 1))
        } else if c == '"' {
            let j = quote_end(s, i + 1);
            proof {
                lemma_quote_end_bounds(s, i + 1);
            }
            token_then(
                TokenView::Text(s.subrange(i + 1, j)),
                lex_from(
                    s,
                    if j < s.len() {
                        j + 1
                    } else {
                        j
                    },
                ),
            )
        } else if c == ':' {
            token_then(TokenView::Colon, lex_from(s, i + 1))
        } else if is_space(c) {
            lex_from(s, i + 1)
        } else if c == ',' {
            token_then(TokenView::Comma, lex_from(s, i + 1))
        } else if is_id_start(c) {
            let j = id_end(s, i + 1);
            proof {
                lemma_id_end_bounds(s, i + 1);
            }
            token_then(TokenView::ID(s.subrange(i, j)), lex_from(s, j))
        } else {
            None
        }
    }
}

/// The tokens of the formula text `s`.
pub open spec fn lex_spec(s: Seq<char>) -> Option<Seq<TokenView>> {
    lex_from(s, 0)
}

/// The characters `chars[from..to]` as a string.
pub(crate) fn substring(chars: &Vec<char>, from: usize, to: usize) -> (r: String)
    requires
        from <= to <= chars.len(),
    ensures
        r@ == chars@.subrange(from as int, to as int),
{
    let mut piece: Vec<char> = Vec::new();
    let mut i: usize = from;
    while i < to
        invariant
            from <= i <= to <= chars.len(),
            piece@ == chars@.subrange(from as int, i as int),
        decreases to - i,
    {
        piece.push(chars[i]);
        assert(piece@ =~= chars@.subrange(from as int, i + 1));
        i = i + 1;
    }
    string_of(&piece)
}

/// Whether `c` may stand inside an identifier: a Latin letter, `_` or a
/// digit.
pub fn is_id_char(c: char) -> (b: bool)
    ensures
        b == spec_is_id_char(c),
{
    (c >= 'A' && c <= 'Z') || (c >= 'a' && c <= 'z') || c == '_' || (c >= '0' && c <= '9')
}

/// Reads the number that begins at `from`: the digit there and the digits
/// that follow it. Returns the token and the index after it.
fn lex_number(chars: &Vec<char>, from: usize) -> (r: (Token, usize))
    requires
        from < chars.len(),
        crate::number::is_digit(chars@[from as int]),
    ensures
        r.1 == digits_end(chars@, from + 1),
        from < r.1 <= chars.len(),
        r.0.deep_view() == TokenView::Number(chars@.subrange(from as int, r.1 as int)),
{
    let mut end: usize = from + 1;
    while end < chars.len() && chars[end] >= '0' && chars[end] <= '9'
        invariant
            from < end <= chars.len(),
            digits_end(chars@, from + 1) == digits_end(chars@, end as int),
        decreases chars.len() - end,
    {
        end = end + 1;
    }
    (Token::Number(substring(chars, from, end)), end)
}

/// Reads the identifier that begins at `from`. Returns the token and the
/// index after it.
fn lex_id(chars: &Vec<char>, from: usize) -> (r: (Token, usize))
    requires
        from < chars.len(),
        is_id_start(chars@[from as int]),
    ensures
        r.1 == id_end(chars@, from + 1),
        from < r.1 <= chars.len(),
        r.0.deep_view() == TokenView::ID(chars@.subrange(from as int, r.1 as int)),
{
    let mut end: usize = from + 1;
    while end < chars.len() && is_id_char(chars[end])
        invariant
            from < end <= chars.len(),
            id_end(chars@, from + 1) == id_end(chars@, end as int),
        decreases chars.len() - end,
    {
        end = end + 1;
    }
    (Token::ID(substring(chars, from, end)), end)
}

/// Reads the quoted text whose opening quote stands at `from`. Returns the
/// token and the index at which lexing goes on.
fn lex_text(chars: &Vec<char>, from: usize) -> (r: (Token, usize))
    requires
        from < chars.len(),
    ensures
        from < quote_end(chars@, from + 1) <= chars.len(),
        r.1 == if quote_end(chars@, from + 1) < chars.len() {
            quote_end(chars@, from + 1) + 1
        } else {
            quote_end(chars@, from + 1)
        },
        r.0.deep_view() == TokenView::Text(
            chars@.subrange(from + 1, quote_end(chars@, from + 1)),
        ),
{
    let mut end: usize = from + 1;
    while end < chars.len() && chars[end] != '"'
        invariant
            from < end <= chars.len(),
            quote_end(chars@, from + 1) == quote_end(chars@, end as int),
        decreases chars.len() - end,
    {
        end = end + 1;
    }
    let next: usize = if end < chars.len() {
        end + 1
    } else {
        end
    };
    (Token::Text(substring(chars, from + 1, end)), next)
}

/// The message of a lexing failure.
pub open spec fn unrecognized_input() -> Seq<char> {
    "unrecognized input"@
}

/// Splits formula text into tokens and closes them with `Eof`.
///
/// Fails with `"unrecognized input"` exactly where some character outside
/// quoted text is no digit, letter, `_`, parenthesis, sign, quote, colon,
/// comma or blank.
pub fn lex(input: &str) -> (r: Result<Vec<Token>, &'static str>)
    ensures
        match lex_spec(input@) {
            Some(tokens) => r is Ok && r->Ok_0.deep_view() == tokens,
            None => r is Err && r->Err_0@ == unrecognized_input(),
        },
{
    let chars = chars_of(input);
    lex_chars(&chars)
}

/// [`lex`] on text that is given by its characters.
pub fn lex_chars(chars: &Vec<char>) -> (r: Result<Vec<Token>, &'static str>)
    ensures
        match lex_spec(chars@) {
            Some(tokens) => r is Ok && r->Ok_0.deep_view() == tokens,
            None => r is Err && r->Err_0@ == unrecognized_input(),
        },
{
    let mut result: Vec<Token> = Vec::new();
    let mut i: usize = 0;
    while i < chars.len()
        invariant
            i <= chars.len(),
            lex_spec(chars@) == match lex_from(chars@, i as int) {
                Some(rest) => Some(result.deep_view() + rest),
                None => None,
            },
        decreases chars.len() - i,
    {
        let c: char = chars[i];
        let ghost before = result.deep_view();
        let ghost at = i as int;
        if c >= '0' && c <= '9' {
            let (t, next) = lex_number(&chars, i);
            result.push(t);
            i = next;
        } else if c == '(' || c == ')' || c == '*' || c == '+' || c == '-' || c == '/' {
            result.push(Token::Op(c));
            i = i + 1;
        } else if c == '"' {
            let (t, next) = lex_text(&chars, i);
            result.push(t);
            i = next;
        } else if c == ':' {
            result.push(Token::Colon);
            i = i + 1;
        } else if c == ' ' || c == '\t' || c == '\n' || c == '\r' {
            i = i + 1;
        } else if c == ',' {
            result.push(Token::Comma);
            i = i + 1;
        } else if (c >= 'A' && c <= 'Z') || (c >= 'a' && c <= 'z') || c == '_' {
            let (t, next) = lex_id(&chars, i);
            result.push(t);
            i = next;
        } else {
            return Err("unrecognized input");
        }
        proof {
            if !is_space(c) {
                let t = result@.last().deep_view();
                assert(result.deep_view() =~= before.push(t));
                match lex_from(chars@, i as int) {
                    Some(rest) => {
                        assert(before + (seq![t] + rest) =~= result.deep_view() + rest);
                    },
                    None => {},
                }
            }
        }
    }
    let ghost before = result.deep_view();
    result.push(Token::Eof);
    assert(result.deep_view() =~= before + seq![TokenView::Eof]);
    Ok(result)
}

} // verus!
