use spreadsheet_service::parser::lexer::is_id_char;
use spreadsheet_service::parser::lexer::lex;
use spreadsheet_service::parser::lexer::Token;

fn number(text: &str) -> Token {
    Token::Number(text.to_string())
}

#[test]
fn test_parse_number() {
    let tokens = lex(&"30".to_string()).unwrap();

    assert_eq!(2, tokens.len());
    assert_eq!(&number("30"), tokens.get(0).unwrap());
    assert_eq!(&Token::Eof, tokens.get(1).unwrap());

    let tokens = lex(&"30 40 50".to_string()).unwrap();
    assert_eq!(4, tokens.len());

    assert_eq!(&number("30"), tokens.get(0).unwrap());
    assert_eq!(&number("40"), tokens.get(1).unwrap());
    assert_eq!(&number("50"), tokens.get(2).unwrap());
    assert_eq!(&Token::Eof, tokens.get(3).unwrap());
}

#[test]
fn test_test_parse_number() {
    let tokens = lex("30").unwrap();
    assert_eq!(vec![number("30"), Token::Eof], tokens);

    let tokens = lex("30 40 50").unwrap();
    assert_eq!(
        vec![number("30"), number("40"), number("50"), Token::Eof],
        tokens
    );
}

#[test]
fn test_lex_id() {
    let tokens = lex(&"this_id".to_string()).unwrap();

    assert_eq!(2, tokens.len());
    assert_eq!(&Token::ID("this_id".to_string()), tokens.get(0).unwrap());
    assert_eq!(&Token::Eof, tokens.get(1).unwrap());
}

#[test]
fn test_parse_id() {
    let tokens = lex("this_id").unwrap();
    assert_eq!(vec![Token::ID("this_id".to_string()), Token::Eof], tokens);
}

#[test]
fn lex_empty_text_is_only_eof() {
    assert_eq!(vec![Token::Eof], lex("").unwrap());
    assert_eq!(vec![Token::Eof], lex("  \t ").unwrap());
}

#[test]
fn lex_every_kind_of_token() {
    let tokens = lex("SUM(A1:B2, 3) * \"a b\" - x/2+1").unwrap();
    assert_eq!(
        vec![
            Token::ID("SUM".to_string()),
            Token::Op('('),
            Token::ID("A1".to_string()),
            Token::Colon,
            Token::ID("B2".to_string()),
            Token::Comma,
            number("3"),
            Token::Op(')'),
            Token::Op('*'),
            Token::Text("a b".to_string()),
            Token::Op('-'),
            Token::ID("x".to_string()),
            Token::Op('/'),
            number("2"),
            Token::Op('+'),
            number("1"),
            Token::Eof,
        ],
        tokens
    );
}

#[test]
fn lex_digits_then_letters_are_two_tokens() {
    assert_eq!(
        vec![number("12"), Token::ID("ab3".to_string()), Token::Eof],
        lex("12ab3").unwrap()
    );
}

#[test]
fn lex_unterminated_quote_runs_to_the_end() {
    assert_eq!(
        vec![Token::Text("abc, 1".to_string()), Token::Eof],
        lex("\"abc, 1").unwrap()
    );
    assert_eq!(vec![Token::Text(String::new()), Token::Eof], lex("\"").unwrap());
    assert_eq!(
        vec![Token::Text("".to_string()), number("1"), Token::Eof],
        lex("\"\"1").unwrap()
    );
}

#[test]
fn lex_rejects_other_characters() {
    assert_eq!(Err("unrecognized input"), lex("1 $ 2"));
    assert_eq!(Err("unrecognized input"), lex("1.5"));
    assert_eq!(Err("unrecognized input"), lex("a = b"));
    assert_eq!(Err("unrecognized input"), lex("{"));
    assert_eq!(Err("unrecognized input"), lex("é"));
    // The signs between `Z` and `a` are no letters.
    assert_eq!(Err("unrecognized input"), lex("2^3"));
    assert_eq!(Err("unrecognized input"), lex("A1[0]"));
    assert_eq!(Err("unrecognized input"), lex("a\\b"));
    assert_eq!(Err("unrecognized input"), lex("`x`"));
    assert_eq!(Err("unrecognized input"), lex("]"));
}

#[test]
fn an_underscore_counts_as_a_letter() {
    assert_eq!(
        vec![Token::ID("_a_1".to_string()), Token::Op('+'), Token::ID("b_".to_string()), Token::Eof],
        lex("_a_1+b_").unwrap()
    );
}

#[test]
fn id_characters() {
    assert!(is_id_char('A'));
    assert!(is_id_char('z'));
    assert!(is_id_char('_'));
    assert!(is_id_char('0'));
    assert!(is_id_char('9'));
    assert!(!is_id_char(' '));
    assert!(!is_id_char('('));
    assert!(!is_id_char('{'));
    assert!(!is_id_char('@'));
    assert!(!is_id_char('/'));
    assert!(!is_id_char(':'));
    assert!(is_id_char('Z'));
    assert!(is_id_char('a'));
    assert!(!is_id_char('['));
    assert!(!is_id_char('\\'));
    assert!(!is_id_char(']'));
    assert!(!is_id_char('^'));
    assert!(!is_id_char('`'));
}
