use spreadsheet_service::number::Number;
use spreadsheet_service::parser::ast::ASTNode;
use spreadsheet_service::parser::ast::CellRef;
use spreadsheet_service::parser::ast::Operator;
use spreadsheet_service::models::cell::CellLocation;
use spreadsheet_service::models::cell::CellRange;
use spreadsheet_service::parser::lexer::Token;
use spreadsheet_service::parser::parser::advance;
use spreadsheet_service::parser::parser::col_letters_to_num;
use spreadsheet_service::parser::parser::get_operator;
use spreadsheet_service::parser::parser::infix_binding_power;
use spreadsheet_service::parser::parser::parse;
use spreadsheet_service::parser::parser::parse_cell_or_function;
use spreadsheet_service::parser::parser::parse_cell_ref;
use spreadsheet_service::parser::parser::parse_cell_ref_or_range;
use spreadsheet_service::parser::parser::parse_function;
use spreadsheet_service::parser::parser::parse_function_argument;
use spreadsheet_service::parser::parser::parse_number;
use spreadsheet_service::parser::parser::parse_paren_expr;
use spreadsheet_service::parser::parser::parse_internal;
use spreadsheet_service::parser::parser::peek;
use spreadsheet_service::parser::parser::postfix_binding_power;
use spreadsheet_service::parser::parser::pratt_parse;
use spreadsheet_service::parser::parser::prefix_binding_power;
use spreadsheet_service::parser::parser::Error;

fn num(n: i64) -> ASTNode {
    ASTNode::Number(Number::from_int(n).unwrap())
}

fn number(text: &str) -> Token {
    Token::Number(text.to_string())
}

fn id(text: &str) -> Token {
    Token::ID(text.to_string())
}

// The tokens in the order in which they are written, put on a stack.
fn stack(mut tokens: Vec<Token>) -> Vec<Token> {
    tokens.reverse();
    tokens
}

fn binary(op: Operator, lhs: ASTNode, rhs: ASTNode) -> ASTNode {
    ASTNode::BinaryExpr {
        op,
        lhs: Box::new(lhs),
        rhs: Box::new(rhs),
    }
}

fn reference(col: i32, row: i32) -> ASTNode {
    ASTNode::Ref(CellRef { col, row })
}

fn error(text: &str) -> ASTNode {
    ASTNode::ParseError(text.to_string())
}

#[test]
fn test_parse() {
    let tokens = &mut stack(vec![number("30"), Token::Op('+'), number("40")]);
    let node = parse_internal(tokens);

    assert_eq!(
        node,
        ASTNode::BinaryExpr {
            op: Operator::Add,
            lhs: Box::new(num(30)),
            rhs: Box::new(num(40)),
        }
    );
}

#[test]
fn test_test_parse() {
    let tokens = &mut stack(vec![number("30"), Token::Op('+'), number("40"), Token::Eof]);
    let node = parse_internal(tokens);
    assert_eq!(node, binary(Operator::Add, num(30), num(40)));
}

#[test]
fn test_parse_function() {
    let tokens = &mut stack(vec![
        id("ABC"),
        Token::Op('('),
        number("20"),
        Token::Op('+'),
        number("40"),
        Token::Comma,
        number("60"),
        Token::Op(')'),
    ]);
    let node = parse_internal(tokens);

    assert_eq!(
        node,
        ASTNode::Function {
            name: "ABC".to_string(),
            args: vec![
                Box::new(ASTNode::BinaryExpr {
                    op: Operator::Add,
                    lhs: Box::new(num(20)),
                    rhs: Box::new(num(40)),
                }),
                Box::new(num(60)),
            ],
        }
    );
}

#[test]
fn test_test_parse_function() {
    assert_eq!(
        parse("=ABC(20 + 40, 60)"),
        ASTNode::Function {
            name: "ABC".to_string(),
            args: vec![
                Box::new(binary(Operator::Add, num(20), num(40))),
                Box::new(num(60)),
            ],
        }
    );
}

#[test]
fn test_parse_cell_ref() {
    let tokens = &mut stack(vec![id("B1")]);
    let node = parse_internal(tokens);
    assert_eq!(node, ASTNode::Ref(CellRef { col: 1, row: 0 }));
}

#[test]
fn test_test_parse_cell_ref() {
    assert_eq!(parse("=B1"), ASTNode::Ref(CellRef { col: 1, row: 0 }));
}

#[test]
fn column_codec() {
    assert_eq!(0, col_letters_to_num("A"));
    assert_eq!(25, col_letters_to_num("Z"));
    assert_eq!(26, col_letters_to_num("AA"));
    assert_eq!(27, col_letters_to_num("AB"));
    assert_eq!(51, col_letters_to_num("AZ"));
    assert_eq!(52, col_letters_to_num("BA"));
    assert_eq!(701, col_letters_to_num("ZZ"));
    assert_eq!(702, col_letters_to_num("AAA"));
    assert_eq!(1, col_letters_to_num("b"));
    assert_eq!(26, col_letters_to_num("aA"));
    assert_eq!(-1, col_letters_to_num(""));
    assert_eq!(2147483647, col_letters_to_num("FXSHRXX"));
}

#[test]
fn cell_references() {
    assert_eq!(Ok(CellRef { col: 0, row: 0 }), parse_cell_ref("A1"));
    assert_eq!(Ok(CellRef { col: 25, row: 9 }), parse_cell_ref("Z10"));
    assert_eq!(Ok(CellRef { col: 26, row: 99 }), parse_cell_ref("AA100"));
    assert_eq!(Ok(CellRef { col: 2, row: 6 }), parse_cell_ref("c007"));
    // Column letters alone name no row.
    assert_eq!(Ok(CellRef { col: 3, row: -1 }), parse_cell_ref("D"));
    assert_eq!(Ok(CellRef { col: 0, row: -1 }), parse_cell_ref("A0"));
    assert_eq!(
        Ok(CellRef {
            col: 0,
            row: 2147483646
        }),
        parse_cell_ref("A2147483647")
    );
}

#[test]
fn malformed_cell_references() {
    let letter = Error::new("expected a letter but did not find one for an ID");
    assert_eq!(Err(letter.clone()), parse_cell_ref(""));
    assert_eq!(Err(letter.clone()), parse_cell_ref("1A"));
    assert_eq!(Err(letter.clone()), parse_cell_ref("_A1"));
    assert_eq!(Err(letter), parse_cell_ref("$A1"));
    let column = Error::new("row already specified but found column specifier");
    assert_eq!(Err(column.clone()), parse_cell_ref("A1B"));
    assert_eq!(Err(column.clone()), parse_cell_ref("A_1"));
    assert_eq!(Err(column), parse_cell_ref("A1.5"));
    assert_eq!(
        Err(Error::new("cannot parse row number from 2147483648")),
        parse_cell_ref("A2147483648")
    );
    assert_eq!(
        Err(Error::new("column is out of range")),
        parse_cell_ref("ZZZZZZZZ1")
    );
    assert_eq!(
        "column is out of range",
        parse_cell_ref("FXSHRXY1").unwrap_err().message()
    );
    // The last column that an `i32` can name.
    assert_eq!(
        Ok(CellRef {
            col: 2147483647,
            row: 0
        }),
        parse_cell_ref("FXSHRXX1")
    );
}

#[test]
fn operators() {
    assert_eq!(Ok(Operator::Add), get_operator("+"));
    assert_eq!(Ok(Operator::Subtract), get_operator("-"));
    assert_eq!(Ok(Operator::Multiply), get_operator("*"));
    assert_eq!(Ok(Operator::Divide), get_operator("/"));
    assert_eq!(Err(Error::new("unrecognized operator ^")), get_operator("^"));
    assert_eq!(Err(Error::new("unrecognized operator ")), get_operator(""));
    assert_eq!(Err(Error::new("unrecognized operator ++")), get_operator("++"));
}

#[test]
fn binding_powers() {
    assert_eq!(Some((1, 2)), infix_binding_power('+'));
    assert_eq!(Some((1, 2)), infix_binding_power('-'));
    assert_eq!(Some((3, 4)), infix_binding_power('*'));
    assert_eq!(Some((3, 4)), infix_binding_power('/'));
    assert_eq!(Some((5, 6)), infix_binding_power('^'));
    assert_eq!(None, infix_binding_power('('));
    assert_eq!(None, infix_binding_power(')'));
    assert_eq!(None, infix_binding_power(':'));
    assert_eq!((0, 7), prefix_binding_power('-'));
    assert_eq!(Some((0, 0)), postfix_binding_power('!'));
}

#[test]
fn peek_and_advance() {
    let mut tokens = stack(vec![number("1"), Token::Comma]);
    assert_eq!(number("1"), peek(&tokens));
    assert_eq!(2, tokens.len());
    assert_eq!(number("1"), advance(&mut tokens));
    assert_eq!(Token::Comma, advance(&mut tokens));
    assert_eq!(0, tokens.len());
    assert_eq!(Token::Eof, peek(&tokens));
    assert_eq!(Token::Eof, advance(&mut tokens));
    assert_eq!(0, tokens.len());
}

#[test]
fn literals_are_numbers_or_text() {
    assert_eq!(num(10), parse("10"));
    assert_eq!(num(-3), parse("-3"));
    assert_eq!(num(7), parse("+7"));
    assert_eq!(ASTNode::Number(Number { units: 1_500_000 }), parse("1.50"));
    assert_eq!(ASTNode::Number(Number { units: 500_000 }), parse(".5"));
    assert_eq!(ASTNode::Number(Number { units: 5_000_000 }), parse("5."));
    assert_eq!(ASTNode::Number(Number { units: -1 }), parse("-0.000001"));
    assert_eq!(ASTNode::Text("hello".to_string()), parse("hello"));
    assert_eq!(ASTNode::Text("".to_string()), parse(""));
    assert_eq!(ASTNode::Text(" 5".to_string()), parse(" 5"));
    assert_eq!(ASTNode::Text("1e3".to_string()), parse("1e3"));
    assert_eq!(ASTNode::Text(".".to_string()), parse("."));
    assert_eq!(ASTNode::Text("-".to_string()), parse("-"));
    assert_eq!(ASTNode::Text("1.2.3".to_string()), parse("1.2.3"));
    assert_eq!(ASTNode::Text("0.0000001".to_string()), parse("0.0000001"));
    assert_eq!(ASTNode::Text("A1".to_string()), parse("A1"));
}

#[test]
fn precedence_and_associativity() {
    assert_eq!(
        binary(
            Operator::Add,
            num(1),
            binary(Operator::Multiply, num(2), num(3))
        ),
        parse("=1+2*3")
    );
    assert_eq!(
        binary(
            Operator::Add,
            binary(Operator::Multiply, num(1), num(2)),
            num(3)
        ),
        parse("=1*2+3")
    );
    assert_eq!(
        binary(
            Operator::Subtract,
            binary(Operator::Subtract, num(10), num(2)),
            num(3)
        ),
        parse("=10-2-3")
    );
    assert_eq!(
        binary(
            Operator::Divide,
            binary(Operator::Divide, num(8), num(2)),
            num(2)
        ),
        parse("= 8 / 2 / 2")
    );
}

#[test]
fn parentheses_group() {
    assert_eq!(
        binary(
            Operator::Multiply,
            binary(Operator::Add, num(1), num(2)),
            num(3)
        ),
        parse("=(1+2)*3")
    );
    assert_eq!(num(4), parse("=((4))"));
    assert_eq!(error("No matching ')' found for '('"), parse("=(1+2"));
    assert_eq!(error("No matching ')' found for '('"), parse("=(1,2)"));
    assert_eq!(error("unexpected token )"), parse("=1+2)"));
    assert_eq!(error("unrecognized operator )"), parse("=()"));
}

#[test]
fn signs_apply_to_the_next_term() {
    let minus_one = ASTNode::UnaryExpr {
        op: Operator::Subtract,
        operand: Box::new(num(1)),
    };
    assert_eq!(minus_one, parse("=-1"));
    assert_eq!(
        binary(
            Operator::Add,
            ASTNode::UnaryExpr {
                op: Operator::Subtract,
                operand: Box::new(num(1)),
            },
            num(2)
        ),
        parse("=-1+2")
    );
    assert_eq!(
        ASTNode::UnaryExpr {
            op: Operator::Subtract,
            operand: Box::new(binary(Operator::Add, num(1), num(2))),
        },
        parse("=-(1+2)")
    );
    assert_eq!(
        ASTNode::UnaryExpr {
            op: Operator::Add,
            operand: Box::new(reference(0, 0)),
        },
        parse("=+A1")
    );
}

#[test]
fn references_and_ranges() {
    assert_eq!(reference(0, 0), parse("=A1"));
    assert_eq!(reference(27, 11), parse("=AB12"));
    assert_eq!(
        ASTNode::Range {
            start: CellRef { col: 0, row: 0 },
            stop: CellRef { col: 1, row: 2 },
        },
        parse("=A1:B3")
    );
    assert_eq!(
        ASTNode::Range {
            start: CellRef { col: 0, row: 1 },
            stop: CellRef { col: 0, row: -1 },
        },
        parse("=A2:A")
    );
    assert_eq!(
        error("Could not parse value as cell reference: 3"),
        parse("=A1:3")
    );
    assert_eq!(
        error("Could not parse value as cell reference: end of input"),
        parse("=A1:")
    );
    assert_eq!(error("unexpected token :"), parse("=1:2"));
    assert_eq!(
        error("row already specified but found column specifier"),
        parse("=A1B")
    );
}

#[test]
fn function_calls() {
    assert_eq!(
        ASTNode::Function {
            name: "sum".to_string(),
            args: vec![
                Box::new(ASTNode::Range {
                    start: CellRef { col: 0, row: 0 },
                    stop: CellRef { col: 0, row: 2 },
                }),
                Box::new(ASTNode::Function {
                    name: "F".to_string(),
                    args: vec![Box::new(ASTNode::Text("x".to_string()))],
                }),
            ],
        },
        parse("=sum(A1:A3, F(\"x\"))")
    );
    assert_eq!(
        error("No closing parentheses in function arguments"),
        parse("=SUM(1,2")
    );
    assert_eq!(error("unrecognized operator )"), parse("=SUM()"));
    assert_eq!(error("unexpected token 3"), parse("=SUM(1 3)"));
}

#[test]
fn malformed_formulas_give_error_nodes() {
    assert_eq!(error("unexpected token end of input"), parse("="));
    assert_eq!(error("unexpected token end of input"), parse("=1+"));
    assert_eq!(error("unexpected token 2"), parse("=1 2"));
    assert_eq!(error("unexpected token ,"), parse("=,"));
    assert_eq!(error("unexpected token ,"), parse("=1,2"));
    assert_eq!(error("unrecognized input"), parse("=1 ? 2"));
    assert_eq!(error("unrecognized input"), parse("=1.5"));
    assert_eq!(
        error("Could not parse value as number: 99999999999999999999"),
        parse("=99999999999999999999")
    );
    assert_eq!(error("unexpected token x"), {
        let mut tokens = stack(vec![number("2"), Token::Text("x".to_string())]);
        parse_internal(&mut tokens)
    });
    assert_eq!(error("unexpected token :"), {
        let mut tokens = stack(vec![Token::Colon]);
        parse_internal(&mut tokens)
    });
}

#[test]
fn pratt_parse_leaves_what_it_does_not_read() {
    let mut tokens = stack(vec![
        number("1"),
        Token::Op('+'),
        number("2"),
        Token::Comma,
        number("3"),
    ]);
    assert_eq!(
        Ok(binary(Operator::Add, num(1), num(2))),
        pratt_parse(&mut tokens, 0)
    );
    assert_eq!(stack(vec![Token::Comma, number("3")]), tokens);

    // With a high bound the first operator already ends the expression.
    let mut tokens = stack(vec![number("1"), Token::Op('+'), number("2")]);
    assert_eq!(Ok(num(1)), pratt_parse(&mut tokens, 3));
    assert_eq!(stack(vec![Token::Op('+'), number("2")]), tokens);
}

#[test]
fn an_operator_without_a_function_is_refused() {
    let mut tokens = stack(vec![number("1"), Token::Op('^'), number("2")]);
    assert_eq!(
        Err(Error::new("unrecognized operator ^")),
        pratt_parse(&mut tokens, 0)
    );
}

#[test]
fn identifier_begins_call_or_reference() {
    let mut tokens = stack(vec![Token::Op('('), number("1"), Token::Op(')'), Token::Eof]);
    assert_eq!(
        Ok(ASTNode::Function {
            name: "NEG".to_string(),
            args: vec![Box::new(num(1))],
        }),
        parse_cell_or_function("NEG".to_string(), &mut tokens)
    );
    assert_eq!(vec![Token::Eof], tokens);

    let mut tokens = stack(vec![Token::Op('+'), number("1")]);
    assert_eq!(
        Ok(reference(2, 4)),
        parse_cell_or_function("C5".to_string(), &mut tokens)
    );
    assert_eq!(2, tokens.len());
}

#[test]
fn number_tokens() {
    assert_eq!(Ok(num(42)), parse_number("42"));
    assert_eq!(Ok(num(7)), parse_number("007"));
    assert_eq!(
        Err(Error::new("Could not parse value as number: 4x")),
        parse_number("4x")
    );
    assert_eq!(
        Err(Error::new("Could not parse value as number: ")),
        parse_number("")
    );
    assert_eq!(
        Err(Error::new("Could not parse value as number: 9223372036855")),
        parse_number("9223372036855")
    );
    assert_eq!(
        Ok(ASTNode::Number(Number {
            units: 9_223_372_036_854_000_000
        })),
        parse_number("9223372036854")
    );
}

#[test]
fn after_an_opening_parenthesis() {
    let mut tokens = stack(vec![
        number("1"),
        Token::Op('-'),
        number("2"),
        Token::Op(')'),
        Token::Op('*'),
    ]);
    assert_eq!(
        Ok(binary(Operator::Subtract, num(1), num(2))),
        parse_paren_expr(&mut tokens)
    );
    assert_eq!(vec![Token::Op('*')], tokens);

    let unmatched = Error::new("No matching ')' found for '('");
    let mut tokens = stack(vec![number("1")]);
    assert_eq!(Err(unmatched.clone()), parse_paren_expr(&mut tokens));
    let mut tokens = stack(vec![number("1"), Token::Comma]);
    assert_eq!(Err(unmatched), parse_paren_expr(&mut tokens));
    let mut tokens = stack(vec![Token::Op(')')]);
    assert_eq!(
        Err(Error::new("unrecognized operator )")),
        parse_paren_expr(&mut tokens)
    );
}

#[test]
fn one_argument_of_a_call() {
    let mut tokens = stack(vec![number("1"), Token::Op('+'), id("A1"), Token::Comma, number("2")]);
    assert_eq!(
        Ok(binary(Operator::Add, num(1), reference(0, 0))),
        parse_function_argument(&mut tokens)
    );
    assert_eq!(stack(vec![Token::Comma, number("2")]), tokens);

    let mut tokens = stack(vec![number("1"), Token::Op(')')]);
    assert_eq!(Ok(num(1)), parse_function_argument(&mut tokens));
    assert_eq!(vec![Token::Op(')')], tokens);

    let mut tokens = stack(vec![number("1")]);
    assert_eq!(
        Err(Error::new("No closing parentheses in function arguments")),
        parse_function_argument(&mut tokens)
    );
    let mut tokens = stack(vec![number("1"), Token::Op('(')]);
    assert_eq!(
        Err(Error::new("unexpected token (")),
        parse_function_argument(&mut tokens)
    );
    let mut tokens = stack(vec![number("1"), Token::Colon]);
    assert_eq!(
        Err(Error::new("unexpected token :")),
        parse_function_argument(&mut tokens)
    );
}

#[test]
fn a_call_with_its_arguments() {
    let mut tokens = stack(vec![
        Token::Op('('),
        number("1"),
        Token::Comma,
        Token::Text("two".to_string()),
        Token::Comma,
        id("C3"),
        Token::Op(')'),
        Token::Op('+'),
    ]);
    assert_eq!(
        Ok(ASTNode::Function {
            name: "f".to_string(),
            args: vec![
                Box::new(num(1)),
                Box::new(ASTNode::Text("two".to_string())),
                Box::new(reference(2, 2)),
            ],
        }),
        parse_function("f".to_string(), &mut tokens)
    );
    assert_eq!(vec![Token::Op('+')], tokens);

    let mut tokens = stack(vec![number("1")]);
    assert_eq!(
        Err(Error::new("unexpected token 1")),
        parse_function("f".to_string(), &mut tokens)
    );
    let mut tokens = stack(vec![]);
    assert_eq!(
        Err(Error::new("unexpected token end of input")),
        parse_function("f".to_string(), &mut tokens)
    );
    let mut tokens = stack(vec![Token::Op('('), number("1"), Token::Comma]);
    assert_eq!(
        Err(Error::new("unexpected token end of input")),
        parse_function("f".to_string(), &mut tokens)
    );
    let mut tokens = stack(vec![Token::Op('('), number("1"), Token::Comma, Token::Op(')')]);
    assert_eq!(
        Err(Error::new("unrecognized operator )")),
        parse_function("f".to_string(), &mut tokens)
    );
}

#[test]
fn a_reference_or_a_range() {
    let mut tokens = stack(vec![Token::Colon, id("B2"), Token::Op(')')]);
    assert_eq!(
        Ok(ASTNode::Range {
            start: CellRef { col: 0, row: 0 },
            stop: CellRef { col: 1, row: 1 },
        }),
        parse_cell_ref_or_range("A1".to_string(), &mut tokens)
    );
    assert_eq!(vec![Token::Op(')')], tokens);

    let mut tokens = stack(vec![Token::Comma]);
    assert_eq!(
        Ok(reference(0, 0)),
        parse_cell_ref_or_range("A1".to_string(), &mut tokens)
    );
    assert_eq!(vec![Token::Comma], tokens);

    let mut tokens = stack(vec![Token::Colon, id("2B")]);
    assert_eq!(
        Err(Error::new("expected a letter but did not find one for an ID")),
        parse_cell_ref_or_range("A1".to_string(), &mut tokens)
    );
    let mut tokens = stack(vec![Token::Colon, id("B2")]);
    assert_eq!(
        Err(Error::new("row already specified but found column specifier")),
        parse_cell_ref_or_range("A1A".to_string(), &mut tokens)
    );
}

#[test]
fn references_and_their_ranges() {
    let r = CellRef { col: 2, row: 5 };
    assert!(!r.is_unbounded());
    assert!(CellRef { col: 2, row: -1 }.is_unbounded());
    assert!(r.is_valid(6, 3));
    assert!(!r.is_valid(5, 3));
    assert!(!r.is_valid(6, 2));
    assert!(!CellRef { col: 2, row: -1 }.is_valid(6, 3));
    assert!(!CellRef { col: -1, row: 0 }.is_valid(6, 3));
    assert_eq!(CellLocation { row: 5, col: 2 }, r.loc());
    assert_eq!(
        CellRange {
            start_row: 5,
            start_col: 2,
            stop_row: 6,
            stop_col: 3,
        },
        r.to_cell_range()
    );
    assert_eq!(
        CellRange {
            start_row: 2147483647,
            start_col: 0,
            stop_row: 2147483647,
            stop_col: 1,
        },
        CellRef {
            col: 0,
            row: 2147483647
        }
        .to_cell_range()
    );
}
