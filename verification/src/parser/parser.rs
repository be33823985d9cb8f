//! The formula parser: an operator-precedence parser over a stack of tokens.
//!
//! The tokens of a formula are reversed, so that the next token is the last
//! element of the vector and is taken by popping.
use crate::number::read_digits;
use crate::number::Number;
use crate::parser::ast::ASTNode;
use crate::parser::ast::CellRef;
use crate::parser::ast::Operator;
use crate::parser::lexer::lex_chars;
use crate::parser::lexer::Token;
use crate::text::chars_of;
use crate::text::string_of;
use vstd::prelude::*;
use vstd::string::StringExecFns;

verus! {

/// A failure to parse, with a message for the user.
#[derive(Debug, PartialEq, Clone)]
pub struct Error {
    error_text: String,
}

impl View for Error {
    type V = Seq<char>;

    closed spec fn view(&self) -> Seq<char> {
        self.error_text@
    }
}

impl Error {
    /// An error with the message `txt`.
    pub fn new(txt: &str) -> (e: Error)
        ensures
            e@ == txt@,
    {
        Error { error_text: String::from_str(txt) }
    }

    /// The message.
    pub fn message(&self) -> (m: String)
        ensures
            m@ == self@,
    {
        self.error_text.clone()
    }
}

/// `prefix` followed by `detail`.
fn error_with(prefix: &str, detail: &str) -> (e: Error)
    ensures
        e@ == prefix@ + detail@,
{
    Error { error_text: String::from_str(prefix).concat(detail) }
}

/// How a token is named in a message.
pub open spec fn token_text(t: crate::parser::lexer::TokenView) -> Seq<char> {
    match t {
        crate::parser::lexer::TokenView::Colon => ":"@,
        crate::parser::lexer::TokenView::Number(s) => s,
        crate::parser::lexer::TokenView::Op(c) => seq![c],
        crate::parser::lexer::TokenView::Comma => ","@,
        crate::parser::lexer::TokenView::Text(s) => s,
        crate::parser::lexer::TokenView::ID(s) => s,
        crate::parser::lexer::TokenView::Eof => "end of input"@,
    }
}

/// The message for a token that cannot stand where it was found.
pub open spec fn unexpected_token(t: crate::parser::lexer::TokenView) -> Seq<char> {
    "unexpected token "@ + token_text(t)
}

/// The message for a sign that is no operator.
pub open spec fn unrecognized_operator(text: Seq<char>) -> Seq<char> {
    "unrecognized operator "@ + text
}

/// The message for a number token that writes no storable number.
pub open spec fn bad_number(text: Seq<char>) -> Seq<char> {
    "Could not parse value as number: "@ + text
}

/// The message for a range whose second end is no reference.
pub open spec fn bad_reference(t: crate::parser::lexer::TokenView) -> Seq<char> {
    "Could not parse value as cell reference: "@ + token_text(t)
}

/// The message for a row number that cannot be stored.
pub open spec fn bad_row(digits: Seq<char>) -> Seq<char> {
    "cannot parse row number from "@ + digits
}

/// The message for an opening parenthesis that is never closed.
pub open spec fn unmatched_paren() -> Seq<char> {
    "No matching ')' found for '('"@
}

/// The message for a function call that is never closed.
pub open spec fn unclosed_call() -> Seq<char> {
    "No closing parentheses in function arguments"@
}

/// The message for a reference that does not begin with a letter.
pub open spec fn expected_letter() -> Seq<char> {
    "expected a letter but did not find one for an ID"@
}

/// The message for a reference with anything but digits after its letters.
pub open spec fn row_then_column() -> Seq<char> {
    "row already specified but found column specifier"@
}

/// The message for column letters beyond the last column that can be stored.
pub open spec fn column_out_of_range() -> Seq<char> {
    "column is out of range"@
}

fn token_name(t: &Token) -> (s: String)
    ensures
        s@ == token_text(t.deep_view()),
{
    match t {
        Token::Colon => String::from_str(":"),
        Token::Number(s) => s.clone(),
        Token::Op(c) => {
            let mut one: Vec<char> = Vec::new();
            one.push(*c);
            assert(one@ =~= seq![*c]);
            string_of(&one)
        },
        Token::Comma => String::from_str(","),
        Token::Text(s) => s.clone(),
        Token::ID(s) => s.clone(),
        Token::Eof => String::from_str("end of input"),
    }
}

fn unexpected(t: &Token) -> (e: Error)
    ensures
        e@ == unexpected_token(t.deep_view()),
{
    let name = token_name(t);
    error_with("unexpected token ", name.as_str())
}

/// The operator that the sign `c` writes.
pub open spec fn operator_spec(c: char) -> Option<Operator> {
    if c == '+' {
        Some(Operator::Add)
    } else if c == '-' {
        Some(Operator::Subtract)
    } else if c == '*' {
        Some(Operator::Multiply)
    } else if c == '/' {
        Some(Operator::Divide)
    } else {
        None
    }
}

/// The operator that the text `val` writes: one of the four signs.
pub open spec fn get_operator_spec(val: Seq<char>) -> Result<Operator, Seq<char>> {
    if val.len() == 1 && operator_spec(val[0]) is Some {
        Ok(operator_spec(val[0])->Some_0)
    } else {
        Err(unrecognized_operator(val))
    }
}

fn operator_of(c: char) -> (r: Option<Operator>)
    ensures
        r == operator_spec(c),
{
    if c == '+' {
        Some(Operator::Add)
    } else if c == '-' {
        Some(Operator::Subtract)
    } else if c == '*' {
        Some(Operator::Multiply)
    } else if c == '/' {
        Some(Operator::Divide)
    } else {
        None
    }
}

fn sign_error(c: char) -> (e: Error)
    ensures
        e@ == unrecognized_operator(seq![c]),
{
    let mut one: Vec<char> = Vec::new();
    one.push(c);
    assert(one@ =~= seq![c]);
    error_with("unrecognized operator ", string_of(&one).as_str())
}

/// The operator written by `val`, which must be one of `+`, `-`, `*`, `/`.
pub fn get_operator(val: &str) -> (r: Result<Operator, Error>)
    ensures
        match get_operator_spec(val@) {
            Ok(op) => r == Ok::<Operator, Error>(op),
            Err(msg) => r is Err && r->Err_0@ == msg,
        },
{
    let chars = chars_of(val);
    if chars.len() == 1 {
        match operator_of(chars[0]) {
            Some(op) => {
                return Ok(op);
            },
            None => {},
        }
    }
    Err(error_with("unrecognized operator ", val))
}

/// How tightly a prefix sign holds what follows it: tighter than any infix
/// operator, so that a sign applies to the term right after it.
pub fn prefix_binding_power(op: char) -> (r: (u8, u8))
    ensures
        r == (0u8, 7u8),
{
    (0, 7)
}

/// No operator of the language follows its operand.
pub fn postfix_binding_power(op: char) -> (r: Option<(u8, u8)>)
    ensures
        r == Some((0u8, 0u8)),
{
    Some((0, 0))
}

/// How tightly an infix operator holds its left and its right operand.
pub open spec fn infix_power_spec(op: char) -> Option<(u8, u8)> {
    if op == '+' || op == '-' {
        Some((1u8, 2u8))
    } else if op == '*' || op == '/' {
        Some((3u8, 4u8))
    } else if op == '^' {
        Some((5u8, 6u8))
    } else {
        None
    }
}

/// How tightly an infix operator holds its left and its right operand;
/// `None` for a character that is no infix operator. The right power is the
/// higher of the two, which makes the operators associate to the left.
///
/// `^` has a power but writes no operator: the lexer yields no such token,
/// and a token stack that holds one fails behind its right operand.
pub fn infix_binding_power(op: char) -> (r: Option<(u8, u8)>)
    ensures
        r == infix_power_spec(op),
{
    if op == '+' || op == '-' {
        Some((1, 2))
    } else if op == '*' || op == '/' {
        Some((3, 4))
    } else if op == '^' {
        Some((5, 6))
    } else {
        None
    }
}

/// The next token of a stack: its last element, or `Eof` when it is empty.
pub open spec fn peek_spec(stack: Seq<crate::parser::lexer::TokenView>)
    -> crate::parser::lexer::TokenView {
    if stack.len() == 0 {
        crate::parser::lexer::TokenView::Eof
    } else {
        stack.last()
    }
}

/// The stack without its next token.
pub open spec fn advance_spec(stack: Seq<crate::parser::lexer::TokenView>) -> Seq<
    crate::parser::lexer::TokenView,
> {
    if stack.len() == 0 {
        stack
    } else {
        stack.drop_last()
    }
}

/// The next token, left on the stack.
pub fn peek(tokens: &Vec<Token>) -> (t: Token)
    ensures
        t.deep_view() == peek_spec(tokens.deep_view()),
{
    if tokens.len() == 0 {
        Token::Eof
    } else {
        tokens[tokens.len() - 1].duplicate()
    }
}

/// Takes the next token off the stack; an empty stack gives `Eof`.
pub fn advance(tokens: &mut Vec<Token>) -> (t: Token)
    ensures
        t.deep_view() == peek_spec(old(tokens).deep_view()),
        final(tokens).deep_view() == advance_spec(old(tokens).deep_view()),
        final(tokens)@ == if old(tokens)@.len() == 0 {
            old(tokens)@
        } else {
            old(tokens)@.drop_last()
        },
{
    match tokens.pop() {
        Some(t) => {
            assert(tokens.deep_view() =~= old(tokens).deep_view().drop_last());
            t
        },
        None => Token::Eof,
    }
}

/// Whether `c` is a letter of the Latin alphabet.
pub open spec fn is_letter(c: char) -> bool {
    ('A' <= c <= 'Z') || ('a' <= c <= 'z')
}

/// The value of a column letter: `A` or `a` is 1, `Z` or `z` is 26.
pub open spec fn letter_digit(c: char) -> int {
    if 'a' <= c <= 'z' {
        c as int - 'a' as int + 1
    } else {
        c as int - 'A' as int + 1
    }
}

/// Whether every character of `s` is a letter.
pub open spec fn all_letters(s: Seq<char>) -> bool {
    forall|i: int| 0 <= i < s.len() ==> is_letter(#[trigger] s[i])
}

/// The end of the run of letters that starts at `i`.
pub open spec fn letters_end(s: Seq<char>, i: int) -> int
    decreases s.len() - i,
{
    if 0 <= i < s.len() && is_letter(s[i]) {
        letters_end(s, i + 1)
    } else {
        i
    }
}

/// Column letters read as a number in base 26 whose digits run from 1 to
/// 26, most significant letter first.
pub open spec fn column_number(s: Seq<char>) -> nat
    decreases s.len(),
{
    if s.len() == 0 {
        0
    } else {
        (column_number(s.drop_last()) * 26 + letter_digit(s.last())) as nat
    }
}

/// The reference that `s` writes: letters for the column, then digits for
/// the row, which is counted from 1 in the text and from 0 in the reference.
/// Without digits the row is `-1`.
pub open spec fn cell_ref_spec(s: Seq<char>) -> Result<CellRef, Seq<char>> {
    let k = letters_end(s, 0);
    let letters = s.take(k);
    let digits = s.skip(k);
    if k == 0 {
        Err(expected_letter())
    } else if !crate::number::all_digits(digits) {
        Err(row_then_column())
    } else if column_number(letters) - 1 > i32::MAX {
        Err(column_out_of_range())
    } else if crate::number::digits_value(digits) > i32::MAX {
        Err(bad_row(digits))
    } else {
        Ok(
            CellRef {
                col: (column_number(letters) - 1) as i32,
                row: (crate::number::digits_value(digits) - 1) as i32,
            },
        )
    }
}

proof fn lemma_column_prefix(s: Seq<char>, k: int)
    requires
        all_letters(s),
        0 <= k <= s.len(),
    ensures
        column_number(s.take(k)) <= column_number(s),
        k > 0 ==> column_number(s.take(k)) >= 1,
    decreases s.len() - k,
{
    if k == s.len() {
        assert(s.take(k) =~= s);
        if k > 0 {
            assert(is_letter(s.last()));
        }
    } else {
        lemma_column_prefix(s, k + 1);
        assert(s.take(k + 1).drop_last() =~= s.take(k));
        assert(s.take(k + 1).last() == s[k]);
        assert(is_letter(s[k]));
        if k > 0 {
            assert(s.take(k).drop_last() =~= s.take(k - 1));
            assert(s.take(k).last() == s[k - 1]);
            assert(is_letter(s[k - 1]));
        }
    }
}

/// Reads the column that the letters `chars[..to]` write, counted from 0.
/// `None` where it is above the largest `i32`.
fn column_of(chars: &Vec<char>, to: usize) -> (r: Option<i32>)
    requires
        0 < to <= chars.len(),
        all_letters(chars@.take(to as int)),
    ensures
        match r {
            Some(col) => col == column_number(chars@.take(to as int)) - 1,
            None => column_number(chars@.take(to as int)) - 1 > i32::MAX,
        },
{
    let ghost s = chars@.take(to as int);
    let mut acc: u64 = 0;
    let mut i: usize = 0;
    while i < to
        invariant
            i <= to <= chars.len(),
            s == chars@.take(to as int),
            all_letters(s),
            acc == column_number(s.take(i as int)),
            acc <= 0x8000_0000,
        decreases to - i,
    {
        let c: char = chars[i];
        assert(s[i as int] == c);
        assert(is_letter(s[i as int]));
        let d: u64 = if c >= 'a' && c <= 'z' {
            (c as u32 - 96) as u64
        } else {
            (c as u32 - 64) as u64
        };
        let next: u64 = acc * 26 + d;
        proof {
            assert(s.take(i + 1).drop_last() =~= s.take(i as int));
            assert(s.take(i + 1).last() == c);
        }
        if next > 0x8000_0000 {
            proof {
                lemma_column_prefix(s, i + 1);
            }
            return None;
        }
        acc = next;
        i = i + 1;
    }
    proof {
        assert(s.take(to as int) =~= s);
        lemma_column_prefix(s, to as int);
    }
    Some((acc - 1) as i32)
}

/// The zero-based column that `letters` write: `A` is 0, `Z` is 25, `AA` is
/// 26. Lower-case letters count as their capitals. No letters give `-1`,
/// the column before the first.
pub fn col_letters_to_num(letters: &str) -> (col: i32)
    requires
        all_letters(letters@),
        column_number(letters@) - 1 <= i32::MAX,
    ensures
        col == column_number(letters@) - 1,
{
    let chars = chars_of(letters);
    if chars.len() == 0 {
        return -1;
    }
    assert(chars@.take(chars@.len() as int) =~= chars@);
    match column_of(&chars, chars.len()) {
        Some(col) => col,
        None => 0,
    }
}

/// Reads a cell reference such as `B12`, or column letters alone.
///
/// Fails where `ref_val` does not begin with a letter, where anything but
/// digits follows the letters, and where the column or the row is beyond what
/// an `i32` holds.
#[verifier::loop_isolation(false)]
pub fn parse_cell_ref(ref_val: &str) -> (r: Result<CellRef, Error>)
    ensures
        match cell_ref_spec(ref_val@) {
            Ok(cell_ref) => r == Ok::<CellRef, Error>(cell_ref),
            Err(msg) => r is Err && r->Err_0@ == msg,
        },
{
    let chars = chars_of(ref_val);
    let n: usize = chars.len();
    let mut k: usize = 0;
    while k < n && ((chars[k] >= 'A' && chars[k] <= 'Z') || (chars[k] >= 'a' && chars[k] <= 'z'))
        invariant
            k <= n == chars.len(),
            letters_end(chars@, 0) == letters_end(chars@, k as int),
            all_letters(chars@.take(k as int)),
        decreases n - k,
    {
        k = k + 1;
        assert forall|i: int| 0 <= i < k implies is_letter(#[trigger] chars@.take(k as int)[i]) by {
            if i < k - 1 {
                assert(chars@.take(k - 1)[i] == chars@[i]);
            }
        }
    }
    if k == 0 {
        return Err(Error::new("expected a letter but did not find one for an ID"));
    }
    let ghost digits = chars@.skip(k as int);
    let mut j: usize = k;
    while j < n
        invariant
            k <= j <= n == chars.len(),
            digits == chars@.skip(k as int),
            crate::number::all_digits(digits.take(j - k)),
        decreases n - j,
    {
        let c: char = chars[j];
        assert(digits[j - k] == c);
        if !(c >= '0' && c <= '9') {
            return Err(Error::new("row already specified but found column specifier"));
        }
        j = j + 1;
        assert forall|i: int| 0 <= i < j - k implies crate::number::is_digit(
            #[trigger] digits.take(j - k)[i],
        ) by {
            if i < j - k - 1 {
                assert(digits.take(j - k - 1)[i] == digits[i]);
            }
        }
    }
    assert(digits.take(n - k) =~= digits);
    assert(digits =~= chars@.subrange(k as int, n as int));
    let col: i32 = match column_of(&chars, k) {
        Some(col) => col,
        None => {
            return Err(Error::new("column is out of range"));
        },
    };
    let row: i32 = match read_digits(&chars, k, n, 0x7fff_ffff) {
        Some(v) => (v as i64 - 1) as i32,
        None => {
            let text = crate::parser::lexer::substring(&chars, k, n);
            return Err(error_with("cannot parse row number from ", text.as_str()));
        },
    };
    Ok(CellRef { col, row })
}

/// A term: a number, a quoted text, a parenthesized expression, a signed
/// term, a function call, a reference or a range. Gives the term and the
/// tokens left after it.
pub open spec fn primary_spec(stack: Seq<crate::parser::lexer::TokenView>) -> Result<
    (crate::parser::ast::Ast, Seq<crate::parser::lexer::TokenView>),
    Seq<char>,
>
    decreases stack.len(), 0int,
{
    if stack.len() == 0 {
        Err(unexpected_token(crate::parser::lexer::TokenView::Eof))
    } else {
        let rest = stack.drop_last();
        match stack.last() {
            crate::parser::lexer::TokenView::Op(c) => if c == '(' {
                paren_spec(rest)
            } else {
                match operator_spec(c) {
                    Some(op) => match pratt_spec(rest, 7) {
                        Ok((operand, after)) => Ok(
                            (
                                crate::parser::ast::Ast::Unary { op, operand: Box::new(operand) },
                                after,
                            ),
                        ),
                        Err(e) => Err(e),
                    },
                    None => Err(unrecognized_operator(seq![c])),
                }
            },
            crate::parser::lexer::TokenView::Number(txt) => match number_spec(txt) {
                Ok(node) => Ok((node, rest)),
                Err(e) => Err(e),
            },
            crate::parser::lexer::TokenView::Text(txt) => Ok(
                (crate::parser::ast::Ast::Text(txt), rest),
            ),
            crate::parser::lexer::TokenView::ID(id) => cell_or_function_spec(id, rest),
            t => Err(unexpected_token(t)),
        }
    }
}

/// The node of a number token: the number that its digits write.
pub open spec fn number_spec(text: Seq<char>) -> Result<crate::parser::ast::Ast, Seq<char>> {
    match crate::number::parse_spec(text) {
        Some(n) => Ok(crate::parser::ast::Ast::Number(n)),
        None => Err(bad_number(text)),
    }
}

/// What follows an opening parenthesis: an expression and the closing
/// parenthesis.
pub open spec fn paren_spec(stack: Seq<crate::parser::lexer::TokenView>) -> Result<
    (crate::parser::ast::Ast, Seq<crate::parser::lexer::TokenView>),
    Seq<char>,
>
    decreases stack.len(), 2int,
{
    match pratt_spec(stack, 0) {
        Ok((inner, after)) => if peek_spec(after) == crate::parser::lexer::TokenView::Op(')') {
            Ok((inner, advance_spec(after)))
        } else {
            Err(unmatched_paren())
        },
        Err(e) => Err(e),
    }
}

/// An expression whose infix operators all hold their left operand with at
/// least the power `mbp`: a term, then operators and further operands.
///
/// The definition goes on only where the term has taken a token. It always
/// has ([`lemma_primary_consumes`]), so the failure with an empty message is
/// never met.
pub open spec fn pratt_spec(stack: Seq<crate::parser::lexer::TokenView>, mbp: u8) -> Result<
    (crate::parser::ast::Ast, Seq<crate::parser::lexer::TokenView>),
    Seq<char>,
>
    decreases stack.len(), 1int,
{
    match primary_spec(stack) {
        Ok((lhs, after)) => if after.len() < stack.len() {
            infix_spec(lhs, after, mbp)
        } else {
            Err(Seq::empty())
        },
        Err(e) => Err(e),
    }
}

/// Continues the expression that begins with `lhs`: while the next token is
/// an infix operator that holds its left operand with at least `mbp`, its
/// right operand is read and joined to what was read so far.
///
/// The failure with an empty message is never met: the right operand has
/// taken a token ([`lemma_pratt_consumes`]).
pub open spec fn infix_spec(
    lhs: crate::parser::ast::Ast,
    stack: Seq<crate::parser::lexer::TokenView>,
    mbp: u8,
) -> Result<(crate::parser::ast::Ast, Seq<crate::parser::lexer::TokenView>), Seq<char>>
    decreases stack.len(), 2int,
{
    match peek_spec(stack) {
        crate::parser::lexer::TokenView::Eof => Ok((lhs, stack)),
        crate::parser::lexer::TokenView::Comma => Ok((lhs, stack)),
        crate::parser::lexer::TokenView::Op(op) => match infix_power_spec(op) {
            Some((l_bp, r_bp)) => if l_bp < mbp {
                Ok((lhs, stack))
            } else {
                match pratt_spec(advance_spec(stack), r_bp) {
                    Ok((rhs, after)) => match operator_spec(op) {
                        Some(o) => if after.len() < stack.len() {
                            infix_spec(
                                crate::parser::ast::Ast::Binary {
                                    op: o,
                                    lhs: Box::new(lhs),
                                    rhs: Box::new(rhs),
                                },
                                after,
                                mbp,
                            )
                        } else {
                            Err(Seq::empty())
                        },
                        None => Err(unrecognized_operator(seq![op])),
                    },
                    Err(e) => Err(e),
                }
            },
            None => Ok((lhs, stack)),
        },
        t => Err(unexpected_token(t)),
    }
}

/// What an identifier begins: a function call where `(` follows it, else a
/// reference or a range.
pub open spec fn cell_or_function_spec(
    id: Seq<char>,
    stack: Seq<crate::parser::lexer::TokenView>,
) -> Result<(crate::parser::ast::Ast, Seq<crate::parser::lexer::TokenView>), Seq<char>>
    decreases stack.len(), 5int,
{
    if peek_spec(stack) == crate::parser::lexer::TokenView::Op('(') {
        function_spec(id, stack)
    } else {
        reference_spec(id, stack)
    }
}

/// The reference that `id` writes, or the range from it to a second
/// reference where `:` follows.
pub open spec fn reference_spec(id: Seq<char>, stack: Seq<crate::parser::lexer::TokenView>)
    -> Result<(crate::parser::ast::Ast, Seq<crate::parser::lexer::TokenView>), Seq<char>> {
    match cell_ref_spec(id) {
        Err(e) => Err(e),
        Ok(left) => if peek_spec(stack) == crate::parser::lexer::TokenView::Colon {
            let after = advance_spec(stack);
            match peek_spec(after) {
                crate::parser::lexer::TokenView::ID(second) => match cell_ref_spec(second) {
                    Ok(right) => Ok(
                        (
                            crate::parser::ast::Ast::Range { start: left, stop: right },
                            advance_spec(after),
                        ),
                    ),
                    Err(e) => Err(e),
                },
                t => Err(bad_reference(t)),
            }
        } else {
            Ok((crate::parser::ast::Ast::Ref(left), stack))
        },
    }
}

/// The call of the function `name` whose opening parenthesis is the next
/// token: its arguments up to the closing parenthesis.
pub open spec fn function_spec(name: Seq<char>, stack: Seq<crate::parser::lexer::TokenView>)
    -> Result<(crate::parser::ast::Ast, Seq<crate::parser::lexer::TokenView>), Seq<char>>
    decreases stack.len(), 4int,
{
    if peek_spec(stack) == crate::parser::lexer::TokenView::Op('(') {
        args_spec(name, Seq::empty(), advance_spec(stack))
    } else {
        Err(unexpected_token(peek_spec(stack)))
    }
}

/// One argument of a call: an expression that a comma or the closing
/// parenthesis follows, which is left on the stack.
pub open spec fn argument_spec(stack: Seq<crate::parser::lexer::TokenView>) -> Result<
    (crate::parser::ast::Ast, Seq<crate::parser::lexer::TokenView>),
    Seq<char>,
>
    decreases stack.len(), 2int,
{
    match pratt_spec(stack, 0) {
        Err(e) => Err(e),
        Ok((node, after)) => match peek_spec(after) {
            crate::parser::lexer::TokenView::Comma => Ok((node, after)),
            crate::parser::lexer::TokenView::Op(c) => if c == ')' {
                Ok((node, after))
            } else {
                Err(unexpected_token(crate::parser::lexer::TokenView::Op(c)))
            },
            crate::parser::lexer::TokenView::Eof => Err(unclosed_call()),
            t => Err(unexpected_token(t)),
        },
    }
}

/// The arguments of a call of `name` after those in `args`: expressions
/// separated by commas, up to the closing parenthesis.
///
/// The failure with an empty message is never met: an argument has taken a
/// token ([`lemma_argument_consumes`]).
pub open spec fn args_spec(
    name: Seq<char>,
    args: Seq<crate::parser::ast::Ast>,
    stack: Seq<crate::parser::lexer::TokenView>,
) -> Result<(crate::parser::ast::Ast, Seq<crate::parser::lexer::TokenView>), Seq<char>>
    decreases stack.len(), 3int,
{
    match argument_spec(stack) {
        Err(e) => Err(e),
        Ok((node, after)) => {
            let more = args.push(node);
            if peek_spec(after) == crate::parser::lexer::TokenView::Comma {
                if 0 < after.len() <= stack.len() {
                    args_spec(name, more, advance_spec(after))
                } else {
                    Err(Seq::empty())
                }
            } else {
                Ok((crate::parser::ast::Ast::Function { name, args: more }, advance_spec(after)))
            }
        },
    }
}


/// The tree of a whole formula, whose tokens lie on `stack`: one expression
/// and nothing after it. Every failure becomes a `ParseError` node.
pub open spec fn parse_tokens_spec(stack: Seq<crate::parser::lexer::TokenView>)
    -> crate::parser::ast::Ast {
    match pratt_spec(stack, 0) {
        Ok((ast, rest)) => if peek_spec(rest) == crate::parser::lexer::TokenView::Eof {
            ast
        } else {
            crate::parser::ast::Ast::ParseError(unexpected_token(peek_spec(rest)))
        },
        Err(e) => crate::parser::ast::Ast::ParseError(e),
    }
}

/// The tree of a cell's text. Text that begins with `=` is a formula: what
/// follows the `=` is split into tokens and parsed. Any other text is a
/// number where it is a decimal literal, and a text literal where it is not.
pub open spec fn parse_text(text: Seq<char>) -> crate::parser::ast::Ast {
    if text.len() > 0 && text[0] == '=' {
        match crate::parser::lexer::lex_spec(text.skip(1)) {
            Some(tokens) => parse_tokens_spec(tokens.reverse()),
            None => crate::parser::ast::Ast::ParseError(
                crate::parser::lexer::unrecognized_input(),
            ),
        }
    } else {
        match crate::number::parse_spec(text) {
            Some(n) => crate::parser::ast::Ast::Number(n),
            None => crate::parser::ast::Ast::Text(text),
        }
    }
}

fn parse_primary(tokens: &mut Vec<Token>) -> (r: Result<ASTNode, Error>)
    ensures
        match primary_spec(old(tokens).deep_view()) {
            Ok((ast, rest)) => r is Ok && r->Ok_0@ == ast && final(tokens).deep_view() == rest,
            Err(msg) => r is Err && r->Err_0@ == msg,
        },
        final(tokens).len() <= old(tokens).len(),
        r is Ok ==> final(tokens).len() < old(tokens).len(),
    decreases old(tokens).len(), 0int,
{
    if tokens.len() == 0 {
        return Err(unexpected(&Token::Eof));
    }
    let first = advance(tokens);
    match first {
        Token::Op(c) => {
            if c == '(' {
                parse_paren_expr(tokens)
            } else {
                let op = match operator_of(c) {
                    Some(op) => op,
                    None => {
                        return Err(sign_error(c));
                    },
                };
                let (_, r_bp) = prefix_binding_power(c);
                match pratt_parse(tokens, r_bp) {
                    Ok(operand) => Ok(ASTNode::UnaryExpr { op, operand: Box::new(operand) }),
                    Err(e) => Err(e),
                }
            }
        },
        Token::Number(txt) => parse_number(txt.as_str()),
        Token::Text(txt) => Ok(ASTNode::Text(txt)),
        Token::ID(id) => parse_cell_or_function(id, tokens),
        t => Err(unexpected(&t)),
    }
}

/// The node of a number token with the text `text`: the number that the
/// digits write. Fails where the number cannot be stored.
pub fn parse_number(text: &str) -> (r: Result<ASTNode, Error>)
    ensures
        match number_spec(text@) {
            Ok(node) => r is Ok && r->Ok_0@ == node,
            Err(msg) => r is Err && r->Err_0@ == msg,
        },
{
    match Number::parse(text) {
        Some(n) => Ok(ASTNode::Number(n)),
        None => Err(error_with("Could not parse value as number: ", text)),
    }
}

/// Parses what follows an opening parenthesis: an expression and the
/// closing parenthesis, which is taken off the stack. Fails where the
/// parenthesis is not closed.
pub fn parse_paren_expr(tokens: &mut Vec<Token>) -> (r: Result<ASTNode, Error>)
    ensures
        match paren_spec(old(tokens).deep_view()) {
            Ok((ast, rest)) => r is Ok && r->Ok_0@ == ast && final(tokens).deep_view() == rest,
            Err(msg) => r is Err && r->Err_0@ == msg,
        },
        final(tokens).len() <= old(tokens).len(),
    decreases old(tokens).len(), 2int,
{
    let inner = match pratt_parse(tokens, 0) {
        Ok(inner) => inner,
        Err(e) => {
            return Err(e);
        },
    };
    match peek(tokens) {
        Token::Op(close) => {
            if close == ')' {
                advance(tokens);
                Ok(inner)
            } else {
                Err(Error::new("No matching ')' found for '('"))
            }
        },
        _ => Err(Error::new("No matching ')' found for '('")),
    }
}

/// Parses one argument of a call: an expression that a comma or the closing
/// parenthesis follows. What follows stays on the stack.
pub fn parse_function_argument(tokens: &mut Vec<Token>) -> (r: Result<ASTNode, Error>)
    ensures
        match argument_spec(old(tokens).deep_view()) {
            Ok((ast, rest)) => r is Ok && r->Ok_0@ == ast && final(tokens).deep_view() == rest,
            Err(msg) => r is Err && r->Err_0@ == msg,
        },
        final(tokens).len() <= old(tokens).len(),
        r is Ok ==> 0 < final(tokens).len() < old(tokens).len(),
    decreases old(tokens).len(), 2int,
{
    let arg = match pratt_parse(tokens, 0) {
        Ok(arg) => arg,
        Err(e) => {
            return Err(e);
        },
    };
    match peek(tokens) {
        Token::Comma => Ok(arg),
        Token::Op(c) => {
            if c == ')' {
                Ok(arg)
            } else {
                Err(unexpected(&Token::Op(c)))
            }
        },
        Token::Eof => Err(Error::new("No closing parentheses in function arguments")),
        t => Err(unexpected(&t)),
    }
}

/// Parses a call of the function `name`, whose opening parenthesis is the
/// next token: the arguments, separated by commas, and the closing
/// parenthesis. A call has at least one argument.
#[verifier::loop_isolation(false)]
pub fn parse_function(name: String, tokens: &mut Vec<Token>) -> (r: Result<ASTNode, Error>)
    ensures
        match function_spec(name@, old(tokens).deep_view()) {
            Ok((ast, rest)) => r is Ok && r->Ok_0@ == ast && final(tokens).deep_view() == rest,
            Err(msg) => r is Err && r->Err_0@ == msg,
        },
        final(tokens).len() <= old(tokens).len(),
    decreases old(tokens).len(), 4int,
{
    let ghost entry = tokens.deep_view();
    match peek(tokens) {
        Token::Op(c) => {
            if c != '(' {
                return Err(unexpected(&Token::Op(c)));
            }
        },
        t => {
            return Err(unexpected(&t));
        },
    }
    advance(tokens);
    let mut args: Vec<Box<ASTNode>> = Vec::new();
    assert(crate::parser::ast::arg_views(args@) =~= Seq::empty());
    loop
        invariant
            tokens.len() < old(tokens).len(),
            function_spec(name@, entry) == args_spec(
                name@,
                crate::parser::ast::arg_views(args@),
                tokens.deep_view(),
            ),
        decreases tokens.len(),
    {
        let ghost before = crate::parser::ast::arg_views(args@);
        let node = match parse_function_argument(tokens) {
            Ok(node) => node,
            Err(e) => {
                return Err(e);
            },
        };
        args.push(Box::new(node));
        assert(crate::parser::ast::arg_views(args@) =~= before.push(node@));
        match advance(tokens) {
            Token::Comma => {},
            _ => {
                let call = ASTNode::Function { name, args };
                proof {
                    crate::parser::ast::lemma_function_view(call);
                }
                return Ok(call);
            },
        }
    }
}

/// Parses the reference that `id` writes, or the range from it to a second
/// reference where `:` follows. On success the tokens that were read have
/// left the stack.
pub fn parse_cell_ref_or_range(id: String, tokens: &mut Vec<Token>) -> (r: Result<ASTNode, Error>)
    ensures
        match reference_spec(id@, old(tokens).deep_view()) {
            Ok((ast, rest)) => r is Ok && r->Ok_0@ == ast && final(tokens).deep_view() == rest,
            Err(msg) => r is Err && r->Err_0@ == msg,
        },
        final(tokens).len() <= old(tokens).len(),
{
    let left = match parse_cell_ref(id.as_str()) {
        Ok(left) => left,
        Err(e) => {
            return Err(e);
        },
    };
    match peek(tokens) {
        Token::Colon => {
            advance(tokens);
            match advance(tokens) {
                Token::ID(second) => match parse_cell_ref(second.as_str()) {
                    Ok(right) => Ok(ASTNode::Range { start: left, stop: right }),
                    Err(e) => Err(e),
                },
                t => {
                    let name = token_name(&t);
                    Err(error_with("Could not parse value as cell reference: ", name.as_str()))
                },
            }
        },
        _ => Ok(ASTNode::Ref(left)),
    }
}

/// Parses what an identifier begins: a call of the function `id` where `(`
/// follows, else the reference that `id` writes, or a range where `:` and a
/// second reference follow. On success the tokens that were read have left
/// the stack.
pub fn parse_cell_or_function(id: String, tokens: &mut Vec<Token>) -> (r: Result<ASTNode, Error>)
    ensures
        match cell_or_function_spec(id@, old(tokens).deep_view()) {
            Ok((ast, rest)) => r is Ok && r->Ok_0@ == ast && final(tokens).deep_view() == rest,
            Err(msg) => r is Err && r->Err_0@ == msg,
        },
        final(tokens).len() <= old(tokens).len(),
    decreases old(tokens).len(), 5int,
{
    let is_call: bool = match peek(tokens) {
        Token::Op(c) => c == '(',
        _ => false,
    };
    if is_call {
        parse_function(id, tokens)
    } else {
        parse_cell_ref_or_range(id, tokens)
    }
}


/// Parses an expression from the top of the stack, stopping before the
/// first infix operator that holds its left operand with less than `mbp`,
/// before a comma, a closing parenthesis and the end of the input. On
/// success the tokens of the expression have left the stack.
#[verifier::loop_isolation(false)]
pub fn pratt_parse(tokens: &mut Vec<Token>, mbp: u8) -> (r: Result<ASTNode, Error>)
    ensures
        match pratt_spec(old(tokens).deep_view(), mbp) {
            Ok((ast, rest)) => r is Ok && r->Ok_0@ == ast && final(tokens).deep_view() == rest,
            Err(msg) => r is Err && r->Err_0@ == msg,
        },
        final(tokens).len() <= old(tokens).len(),
        r is Ok ==> final(tokens).len() < old(tokens).len(),
    decreases old(tokens).len(), 1int,
{
    let ghost entry = tokens.deep_view();
    let mut lhs = match parse_primary(tokens) {
        Ok(lhs) => lhs,
        Err(e) => {
            return Err(e);
        },
    };
    loop
        invariant
            tokens.len() < old(tokens).len(),
            pratt_spec(entry, mbp) == infix_spec(lhs@, tokens.deep_view(), mbp),
        decreases tokens.len(),
    {
        let op: char = match peek(tokens) {
            Token::Eof => {
                return Ok(lhs);
            },
            Token::Comma => {
                return Ok(lhs);
            },
            Token::Op(op) => op,
            t => {
                return Err(unexpected(&t));
            },
        };
        match infix_binding_power(op) {
            Some((l_bp, r_bp)) => {
                if l_bp < mbp {
                    return Ok(lhs);
                }
                advance(tokens);
                let rhs = match pratt_parse(tokens, r_bp) {
                    Ok(rhs) => rhs,
                    Err(e) => {
                        return Err(e);
                    },
                };
                let o = match operator_of(op) {
                    Some(o) => o,
                    None => {
                        return Err(sign_error(op));
                    },
                };
                lhs = ASTNode::BinaryExpr { op: o, lhs: Box::new(lhs), rhs: Box::new(rhs) };
            },
            None => {
                return Ok(lhs);
            },
        }
    }
}

/// Parses a whole formula from its token stack: one expression with nothing
/// but the end of the input after it. A failure is returned as a
/// `ParseError` node that carries the message.
pub fn parse_internal(tokens: &mut Vec<Token>) -> (node: ASTNode)
    ensures
        node@ == parse_tokens_spec(old(tokens).deep_view()),
{
    match pratt_parse(tokens, 0) {
        Ok(n) => match peek(tokens) {
            Token::Eof => n,
            t => ASTNode::ParseError(unexpected(&t).message()),
        },
        Err(e) => ASTNode::ParseError(e.message()),
    }
}

/// Parses the text of a cell. Text that begins with `=` is a formula; any
/// other text is a number where it is a decimal literal and a text literal
/// where it is not. Never fails: a malformed formula gives a `ParseError`
/// node.
#[verifier::loop_isolation(false)]
pub fn parse(input: &str) -> (node: ASTNode)
    ensures
        node@ == parse_text(input@),
{
    let chars = chars_of(input);
    if chars.len() > 0 && chars[0] == '=' {
        let mut formula: Vec<char> = Vec::new();
        let mut i: usize = 1;
        while i < chars.len()
            invariant
                1 <= i <= chars.len(),
                formula@ == chars@.subrange(1, i as int),
            decreases chars.len() - i,
        {
            formula.push(chars[i]);
            assert(formula@ =~= chars@.subrange(1, i + 1));
            i = i + 1;
        }
        assert(formula@ =~= input@.skip(1));
        match lex_chars(&formula) {
            Ok(mut tokens) => {
                let mut stack: Vec<Token> = Vec::new();
                let ghost all = tokens.deep_view();
                assert(stack.deep_view() + tokens.deep_view().reverse() =~= all.reverse());
                while tokens.len() > 0
                    invariant
                        stack.deep_view() + tokens.deep_view().reverse() == all.reverse(),
                    decreases tokens.len(),
                {
                    let ghost left = tokens.deep_view();
                    let ghost done = stack.deep_view();
                    let t = advance(&mut tokens);
                    stack.push(t);
                    assert(stack.deep_view() =~= done.push(left.last()));
                    assert(stack.deep_view() + tokens.deep_view().reverse() =~= done
                        + left.reverse());
                }
                assert(stack.deep_view() =~= all.reverse());
                parse_internal(&mut stack)
            },
            Err(e) => ASTNode::ParseError(String::from_str(e)),
        }
    } else {
        match Number::parse_chars(&chars) {
            Some(n) => ASTNode::Number(n),
            None => ASTNode::Text(String::from_str(input)),
        }
    }
}

/// Whether a parse that succeeds leaves fewer tokens than `len`: at most
/// `len` of them where `strict` is false.
pub open spec fn consumes(
    r: Result<(crate::parser::ast::Ast, Seq<crate::parser::lexer::TokenView>), Seq<char>>,
    len: nat,
    strict: bool,
) -> bool {
    match r {
        Ok((_, rest)) => if strict {
            rest.len() < len
        } else {
            rest.len() <= len
        },
        Err(_) => true,
    }
}

/// A term takes tokens off the stack.
pub proof fn lemma_primary_consumes(stack: Seq<crate::parser::lexer::TokenView>)
    ensures
        consumes(primary_spec(stack), stack.len(), true),
    decreases stack.len(), 0int,
{
    if stack.len() > 0 {
        let rest = stack.drop_last();
        match stack.last() {
            crate::parser::lexer::TokenView::Op(c) => {
                if c == '(' {
                    lemma_paren_consumes(rest);
                } else {
                    lemma_pratt_consumes(rest, 7);
                }
            },
            crate::parser::lexer::TokenView::ID(id) => {
                lemma_cell_or_function_consumes(id, rest);
            },
            _ => {},
        }
    }
}

/// An expression takes tokens off the stack: the parser never reads on from
/// where it stood, and the definitions of the grammar never turn a text
/// away for want of progress.
pub proof fn lemma_pratt_consumes(stack: Seq<crate::parser::lexer::TokenView>, mbp: u8)
    ensures
        consumes(pratt_spec(stack, mbp), stack.len(), true),
    decreases stack.len(), 1int,
{
    lemma_primary_consumes(stack);
    match primary_spec(stack) {
        Ok((lhs, after)) => {
            lemma_infix_consumes(lhs, after, mbp);
        },
        Err(_) => {},
    }
}

/// Operators and operands behind a term leave no more tokens than there
/// were.
pub proof fn lemma_infix_consumes(
    lhs: crate::parser::ast::Ast,
    stack: Seq<crate::parser::lexer::TokenView>,
    mbp: u8,
)
    ensures
        consumes(infix_spec(lhs, stack, mbp), stack.len(), false),
    decreases stack.len(), 2int,
{
    match peek_spec(stack) {
        crate::parser::lexer::TokenView::Op(op) => match infix_power_spec(op) {
            Some((l_bp, r_bp)) => {
                if l_bp >= mbp {
                    lemma_pratt_consumes(advance_spec(stack), r_bp);
                    match pratt_spec(advance_spec(stack), r_bp) {
                        Ok((rhs, after)) => match operator_spec(op) {
                            Some(o) => {
                                lemma_infix_consumes(
                                    crate::parser::ast::Ast::Binary {
                                        op: o,
                                        lhs: Box::new(lhs),
                                        rhs: Box::new(rhs),
                                    },
                                    after,
                                    mbp,
                                );
                            },
                            None => {},
                        },
                        Err(_) => {},
                    }
                }
            },
            None => {},
        },
        _ => {},
    }
}

/// A parenthesized expression takes tokens off the stack.
pub proof fn lemma_paren_consumes(stack: Seq<crate::parser::lexer::TokenView>)
    ensures
        consumes(paren_spec(stack), stack.len(), true),
    decreases stack.len(), 2int,
{
    lemma_pratt_consumes(stack, 0);
}

/// An argument takes tokens off the stack and leaves the token behind it.
pub proof fn lemma_argument_consumes(stack: Seq<crate::parser::lexer::TokenView>)
    ensures
        consumes(argument_spec(stack), stack.len(), true),
        argument_spec(stack) matches Ok((_, rest)) ==> rest.len() > 0,
    decreases stack.len(), 2int,
{
    lemma_pratt_consumes(stack, 0);
}

/// The arguments of a call take tokens off the stack.
pub proof fn lemma_args_consume(
    name: Seq<char>,
    args: Seq<crate::parser::ast::Ast>,
    stack: Seq<crate::parser::lexer::TokenView>,
)
    ensures
        consumes(args_spec(name, args, stack), stack.len(), true),
    decreases stack.len(), 3int,
{
    lemma_argument_consumes(stack);
    match argument_spec(stack) {
        Ok((node, after)) => {
            if peek_spec(after) == crate::parser::lexer::TokenView::Comma {
                lemma_args_consume(name, args.push(node), advance_spec(after));
            }
        },
        Err(_) => {},
    }
}

/// What an identifier begins leaves no more tokens than there were.
pub proof fn lemma_cell_or_function_consumes(
    id: Seq<char>,
    stack: Seq<crate::parser::lexer::TokenView>,
)
    ensures
        consumes(cell_or_function_spec(id, stack), stack.len(), false),
    decreases stack.len(), 5int,
{
    if peek_spec(stack) == crate::parser::lexer::TokenView::Op('(') {
        lemma_args_consume(id, Seq::empty(), advance_spec(stack));
    }
}

} // verus!
