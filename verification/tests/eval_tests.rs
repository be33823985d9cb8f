use spreadsheet_service::models::cell::Cell;
use spreadsheet_service::models::cell::CellRange;
use spreadsheet_service::number::Number;
use spreadsheet_service::parser::ast::ASTNode;
use spreadsheet_service::parser::ast::CellRef;
use spreadsheet_service::parser::ast::Operator;
use spreadsheet_service::parser::evaluator::evaluate;
use spreadsheet_service::parser::evaluator::get_refs;
use spreadsheet_service::parser::functions::and;
use spreadsheet_service::parser::functions::avg;
use spreadsheet_service::parser::functions::count;
use spreadsheet_service::parser::functions::div;
use spreadsheet_service::parser::functions::evaluate_function;
use spreadsheet_service::parser::functions::is_even;
use spreadsheet_service::parser::functions::is_odd;
use spreadsheet_service::parser::functions::median;
use spreadsheet_service::parser::functions::mult;
use spreadsheet_service::parser::functions::or;
use spreadsheet_service::parser::functions::sub;
use spreadsheet_service::parser::functions::sum;
use spreadsheet_service::parser::parser::parse;
use spreadsheet_service::parser::value::EvalResult;
use spreadsheet_service::service::service::MemoryCellsService;

// A grid of 50 rows and 26 columns with the given raw texts.
fn grid(cells: &[(i32, i32, &str)]) -> MemoryCellsService {
    let mut grid = MemoryCellsService::new(50, 26);
    for (row, col, text) in cells {
        grid.set_cell(&Cell::new(*row, *col, text.to_string()));
    }
    grid
}

fn shown(text: &str, cells: &[(i32, i32, &str)]) -> String {
    evaluate(parse(text), &grid(cells))
}

fn n(units: i64) -> EvalResult {
    EvalResult::Numeric(Number { units })
}

fn whole(v: i64) -> EvalResult {
    EvalResult::Numeric(Number::from_int(v).unwrap())
}

fn text(s: &str) -> EvalResult {
    EvalResult::NonNumeric(s.to_string())
}

fn error(s: &str) -> EvalResult {
    EvalResult::Error(s.to_string())
}

#[test]
fn literal_round_trip() {
    for (raw, canonical) in [
        ("10", "10"),
        ("0", "0"),
        ("-3", "-3"),
        ("+7", "7"),
        ("007", "7"),
        ("1.50", "1.5"),
        ("-0.25", "-0.25"),
        (".5", "0.5"),
        ("5.", "5"),
        ("-0", "0"),
        ("0.000001", "0.000001"),
        ("9223372036854.775807", "9223372036854.775807"),
        ("-9223372036854.775807", "-9223372036854.775807"),
        ("hello", "hello"),
        ("", ""),
        ("a = b", "a = b"),
        ("1e3", "1e3"),
        ("9223372036854.775808", "9223372036854.775808"),
        ("12345678901234567890", "12345678901234567890"),
        ("#REF", "#REF"),
    ] {
        assert_eq!(canonical, shown(raw, &[]), "for {:?}", raw);
        // The canonical form is a fixed point.
        assert_eq!(canonical, shown(canonical, &[]), "for {:?}", canonical);
    }
}

#[test]
fn arithmetic() {
    assert_eq!("7", shown("=1+2*3", &[]));
    assert_eq!("9", shown("=(1+2)*3", &[]));
    assert_eq!("5", shown("=10-2-3", &[]));
    assert_eq!("2", shown("=8/2/2", &[]));
    assert_eq!("0.5", shown("=1/2", &[]));
    assert_eq!("0.333333", shown("=1/3", &[]));
    assert_eq!("-0.333333", shown("=(0-1)/3", &[]));
    assert_eq!("0.666666", shown("=2/3", &[]));
    assert_eq!("1", shown("=-1+2", &[]));
    assert_eq!("-3", shown("=-(1+2)", &[]));
    assert_eq!("-6", shown("=2*-3", &[]));
    assert_eq!("#DIV/0!", shown("=1/0", &[]));
    assert_eq!("#NUM!", shown("=9000000000000*2", &[]));
    assert_eq!("#NUM!", shown("=9223372036854+1", &[]));
    assert_eq!("9223372036854", shown("=9223372036853+1", &[]));
    assert_eq!("invalid unary operator Add", shown("=+1", &[]));
    assert_eq!("invalid unary operator Multiply", shown("=*1", &[]));
}

#[test]
fn text_operands_are_passed_over() {
    assert_eq!("1", shown("=1+\"a\"", &[]));
    assert_eq!("0", shown("=\"a\"+\"b\"", &[]));
    assert_eq!("abc", shown("=\"abc\"", &[]));
    assert_eq!("0", shown("=-\"abc\"", &[]));
    // An empty cell evaluates to the empty text.
    assert_eq!("", shown("=B2", &[]));
    assert_eq!("5", shown("=B2+5", &[]));
    assert_eq!("5", shown("=B2+B2+5", &[]));
}

#[test]
fn references_follow_the_raw_text() {
    let cells = [(0, 0, "=B1"), (0, 1, "10"), (1, 0, "=A1*2"), (2, 0, "txt")];
    assert_eq!("10", shown("=A1", &cells));
    assert_eq!("10", shown("=B1", &cells));
    assert_eq!("20", shown("=A2", &cells));
    assert_eq!("30", shown("=A1+A2", &cells));
    assert_eq!("txt", shown("=A3", &cells));
    assert_eq!("10", shown("=a1", &cells));
}

#[test]
fn reference_outside_the_grid() {
    assert_eq!("#REF", shown("=AA1", &[]));
    assert_eq!("#REF", shown("=A51", &[]));
    assert_eq!("#REF", shown("=ZZ999", &[]));
    assert_eq!("", shown("=Z50", &[]));
    assert_eq!("#REF", shown("=1+AA1", &[]));
    assert_eq!("#REF", shown("=AA1+A51*2", &[]));
    assert_eq!("#REF", shown("=A1", &[(0, 0, "=B1"), (0, 1, "=A51")]));
    // Column letters alone name no row.
    assert_eq!("#REF", shown("=A", &[]));
    assert_eq!(
        "#REF",
        evaluate(
            ASTNode::Ref(CellRef { col: -1, row: 0 }),
            &grid(&[])
        )
    );
    assert_eq!(
        "#REF",
        evaluate(
            ASTNode::Ref(CellRef { col: 0, row: 0 }),
            &MemoryCellsService::new(0, 0)
        )
    );
}

#[test]
fn circular_references() {
    assert_eq!("#CIRCULAR", shown("=A1", &[(0, 0, "=A1")]));
    assert_eq!("#CIRCULAR", shown("=A1", &[(0, 0, "=B1"), (0, 1, "=A1")]));
    assert_eq!(
        "#CIRCULAR",
        shown("=A1", &[(0, 0, "=B1+1"), (0, 1, "=C1"), (0, 2, "=A1")])
    );
    assert_eq!("#CIRCULAR", shown("=1+A1", &[(0, 0, "=SUM(1, A1)")]));
    // Reading one cell twice is no circle.
    assert_eq!("4", shown("=A1+A1", &[(0, 0, "2")]));
    assert_eq!("8", shown("=A1+B1", &[(0, 0, "=C1"), (0, 1, "=C1"), (0, 2, "4")]));
}

#[test]
fn ranges_are_flattened_into_arguments() {
    let cells = [(0, 0, "1"), (1, 0, "2"), (2, 0, "3"), (0, 1, "10"), (3, 1, "x")];
    assert_eq!("6", shown("=SUM(A1:A3)", &cells));
    assert_eq!("16", shown("=SUM(A1:B3)", &cells));
    assert_eq!("26", shown("=SUM(A1:A3, 20)", &cells));
    assert_eq!("5", shown("=COUNT(A1:B4)", &cells));
    assert_eq!("3", shown("=COUNT(A1:A50)", &cells));
    assert_eq!("6", shown("=SUM(A:A)", &cells));
    assert_eq!("5", shown("=SUM(A2:A)", &cells));
    assert_eq!("0", shown("=SUM(C1:D9)", &cells));
    assert_eq!("0", shown("=SUM(B1:A1)", &cells));
    assert_eq!("16", shown("=SUM(A1:ZZ999)", &cells));
    // A range is no number where a formula adds it.
    assert_eq!("1", shown("=A1:A3+1", &cells));
    assert_eq!("", shown("=A1:A3", &cells));
}

#[test]
fn errors_in_arguments() {
    assert_eq!("#REF", shown("=SUM(1, AA1, A51)", &[]));
    assert_eq!("#DIV/0!", shown("=SUM(1/0, AA1)", &[]));
    assert_eq!("#REF", shown("=SUM(AA1, 1/0)", &[]));
    // An error inside a range is one of its items, not an argument.
    assert_eq!("3", shown("=SUM(A1:A3)", &[(0, 0, "1"), (1, 0, "=AA1"), (2, 0, "2")]));
    assert_eq!("3", shown("=COUNT(A1:A3)", &[(0, 0, "1"), (1, 0, "=AA1"), (2, 0, "2")]));
    assert_eq!("unrecognized input", shown("=1 ? 2", &[]));
    assert_eq!("unexpected token 2", shown("=1 2", &[]));
    assert_eq!("unexpected token 2", shown("=A1", &[(0, 0, "=1 2")]));
}

#[test]
fn function_names_ignore_case() {
    assert_eq!("6", shown("=sum(1,2,3)", &[]));
    assert_eq!("6", shown("=Sum(1,2,3)", &[]));
    assert_eq!("", shown("=NOSUCH(1,2,3)", &[]));
    assert_eq!("", shown("=SUMM(1,2,3)", &[]));
    assert_eq!("", shown("=SU(1,2,3)", &[]));
    assert_eq!(whole(3), evaluate_function("sUm", vec![whole(1), whole(2)]));
    assert_eq!(whole(-1), evaluate_function("sub", vec![whole(1), whole(2)]));
    assert_eq!(whole(2), evaluate_function("Mult", vec![whole(1), whole(2)]));
    assert_eq!(n(500_000), evaluate_function("DIV", vec![whole(1), whole(2)]));
    assert_eq!(n(1_500_000), evaluate_function("avg", vec![whole(1), whole(2)]));
    assert_eq!(whole(2), evaluate_function("median", vec![whole(1), whole(2)]));
    assert_eq!(whole(2), evaluate_function("count", vec![whole(1), whole(2)]));
    assert_eq!(EvalResult::Bool(true), evaluate_function("iseven", vec![whole(2)]));
    assert_eq!(EvalResult::Bool(false), evaluate_function("isodd", vec![whole(2)]));
    assert_eq!(
        EvalResult::Bool(false),
        evaluate_function("and", vec![EvalResult::Bool(true), EvalResult::Bool(false)])
    );
    assert_eq!(
        EvalResult::Bool(true),
        evaluate_function("or", vec![EvalResult::Bool(true), EvalResult::Bool(false)])
    );
    assert_eq!(text(""), evaluate_function("", vec![whole(1)]));
}

#[test]
fn sum_and_the_folds() {
    assert_eq!(whole(0), sum(vec![]));
    assert_eq!(whole(6), sum(vec![whole(1), text("x"), whole(2), EvalResult::Bool(true), whole(3)]));
    assert_eq!(whole(0), sub(vec![]));
    assert_eq!(whole(5), sub(vec![whole(5)]));
    assert_eq!(whole(-5), sub(vec![whole(0), whole(5)]));
    assert_eq!(whole(4), sub(vec![text("x"), whole(10), whole(1), whole(5)]));
    assert_eq!(whole(0), mult(vec![]));
    assert_eq!(whole(24), mult(vec![whole(2), whole(3), whole(4)]));
    assert_eq!(n(250_000), mult(vec![n(500_000), n(500_000)]));
    assert_eq!(n(0), mult(vec![n(1), n(1)]));
    assert_eq!(n(-2_250_000), mult(vec![n(-1_500_000), n(1_500_000)]));
    assert_eq!(whole(0), div(vec![]));
    assert_eq!(whole(2), div(vec![whole(12), whole(3), whole(2)]));
    assert_eq!(n(-333_333), div(vec![whole(-1), whole(3)]));
    assert_eq!(error("#DIV/0!"), div(vec![whole(1), whole(0), whole(2)]));
    assert_eq!(error("#NUM!"), sum(vec![n(i64::MAX), n(1)]));
    assert_eq!(error("#NUM!"), sub(vec![n(i64::MIN), n(1)]));
    assert_eq!(error("#NUM!"), mult(vec![n(i64::MAX), whole(2)]));
    assert_eq!(error("#NUM!"), div(vec![n(i64::MAX), n(1)]));
    assert_eq!(n(i64::MIN), div(vec![n(i64::MIN), whole(1)]));
    assert_eq!(error("#NUM!"), div(vec![n(i64::MIN), whole(-1)]));
    // The first step that fails decides.
    assert_eq!(error("#NUM!"), div(vec![n(i64::MAX), n(1), whole(0)]));
}

#[test]
fn average() {
    assert_eq!(whole(2), avg(vec![whole(1), whole(2), whole(3)]));
    assert_eq!(n(1_500_000), avg(vec![whole(1), text("x"), whole(2)]));
    assert_eq!(n(333_333), avg(vec![whole(1), whole(0), whole(0)]));
    assert_eq!(error("#DIV/0!"), avg(vec![]));
    assert_eq!(error("#DIV/0!"), avg(vec![text("x")]));
    assert_eq!("#DIV/0!", shown("=AVG(A1:A9)", &[]));
    assert_eq!("2.5", shown("=AVG(1,2,3,4)", &[]));
}

#[test]
fn median_picks_the_upper_middle() {
    assert_eq!(text(""), median(vec![]));
    assert_eq!(text(""), median(vec![text("x")]));
    assert_eq!(whole(5), median(vec![whole(5)]));
    assert_eq!(whole(2), median(vec![whole(3), whole(1), whole(2)]));
    assert_eq!(whole(3), median(vec![whole(4), whole(1), whole(3), whole(2)]));
    assert_eq!(whole(2), median(vec![whole(2), whole(2), whole(1), whole(9), text("x")]));
    assert_eq!(whole(-1), median(vec![whole(-1), whole(-5), whole(7)]));
    assert_eq!("3", shown("=MEDIAN(5,3,1,4,2)", &[]));
}

#[test]
fn counting() {
    assert_eq!(whole(0), count(vec![]));
    assert_eq!(
        whole(4),
        count(vec![whole(1), text("x"), EvalResult::Bool(true), error("#REF")])
    );
}

#[test]
fn even_and_odd() {
    assert_eq!(EvalResult::Bool(true), is_even(vec![whole(4)]));
    assert_eq!(EvalResult::Bool(false), is_even(vec![whole(7)]));
    assert_eq!(EvalResult::Bool(true), is_even(vec![whole(0)]));
    assert_eq!(EvalResult::Bool(true), is_even(vec![whole(-2)]));
    assert_eq!(EvalResult::Bool(false), is_even(vec![whole(-3)]));
    assert_eq!(EvalResult::Bool(true), is_odd(vec![whole(-3)]));
    assert_eq!(EvalResult::Bool(false), is_odd(vec![whole(4)]));
    assert_eq!(error("#VALUE!"), is_even(vec![]));
    assert_eq!(error("#VALUE!"), is_even(vec![whole(1), whole(2)]));
    assert_eq!(error("#VALUE!"), is_even(vec![n(1_500_000)]));
    assert_eq!(error("#VALUE!"), is_even(vec![text("2")]));
    assert_eq!(error("#VALUE!"), is_odd(vec![]));
    assert_eq!(error("#VALUE!"), is_odd(vec![n(-500_000)]));
    assert_eq!(error("#VALUE!"), is_odd(vec![EvalResult::Bool(true)]));
    assert_eq!("true", shown("=ISEVEN(10)", &[]));
    assert_eq!("false", shown("=ISODD(10)", &[]));
    assert_eq!("#VALUE!", shown("=ISODD(1/2)", &[]));
}

#[test]
fn conjunction_and_disjunction() {
    let t = || EvalResult::Bool(true);
    let f = || EvalResult::Bool(false);
    assert_eq!(t(), and(vec![]));
    assert_eq!(f(), or(vec![]));
    assert_eq!(t(), and(vec![t(), whole(0), t()]));
    assert_eq!(f(), and(vec![t(), f(), t()]));
    assert_eq!(t(), or(vec![f(), text("x"), t()]));
    assert_eq!(f(), or(vec![f(), f()]));
    assert_eq!("true", shown("=AND(ISEVEN(2), ISODD(3))", &[]));
    assert_eq!("false", shown("=AND(ISEVEN(2), ISODD(2))", &[]));
    assert_eq!("true", shown("=OR(ISEVEN(1), ISODD(1))", &[]));
    assert_eq!("true", shown("=AND(1, 2)", &[]));
}

#[test]
fn numbers() {
    assert_eq!(Some(Number { units: 1_500_000 }), Number::parse("1.5"));
    assert_eq!(Some(Number { units: -20_000_000 }), Number::parse("-20"));
    assert_eq!(None, Number::parse("1.0000000"));
    assert_eq!(None, Number::parse("--1"));
    assert_eq!(None, Number::parse("1,5"));
    assert_eq!(None, Number::parse("9223372036854.775808"));
    assert_eq!(Some(Number { units: i64::MAX }), Number::parse("9223372036854.775807"));
    assert_eq!(None, Number::from_int(9_223_372_036_855));
    assert_eq!(Some(Number { units: 3_000_000 }), Number::from_count(3));
    assert_eq!("-9223372036854.775808", Number { units: i64::MIN }.render());
    assert_eq!("0.1", Number { units: 100_000 }.render());
    assert_eq!("-0.000001", Number { units: -1 }.render());
    assert_eq!("100", Number { units: 100_000_000 }.render());
    assert_eq!("100.01", Number { units: 100_010_000 }.render());
    let a = Number { units: 1_500_000 };
    let b = Number { units: -250_000 };
    assert_eq!(Some(Number { units: 1_250_000 }), a.plus(b));
    assert_eq!(Some(Number { units: 1_750_000 }), a.minus(b));
    assert_eq!(Some(Number { units: -375_000 }), a.times(b));
    assert_eq!(Some(Number { units: -6_000_000 }), a.divided_by(b));
    assert_eq!(None, a.divided_by(Number::zero()));
    assert!(!a.is_integral());
    assert!(Number { units: -4_000_000 }.is_integral());
    assert!(Number { units: -4_000_000 }.is_even());
    assert!(!Number { units: 3_000_000 }.is_even());
}

#[test]
fn ranges_read_by_a_formula() {
    let one = |row: i32, col: i32| CellRange {
        start_row: row,
        start_col: col,
        stop_row: row + 1,
        stop_col: col + 1,
    };
    assert_eq!(Vec::<CellRange>::new(), get_refs(&parse("=1+2")));
    assert_eq!(Vec::<CellRange>::new(), get_refs(&parse("hello")));
    assert_eq!(vec![one(0, 1)], get_refs(&parse("=B1")));
    assert_eq!(vec![one(0, 1)], get_refs(&parse("=-B1")));
    assert_eq!(
        vec![one(0, 0), one(1, 1), one(0, 0)],
        get_refs(&parse("=A1+B2*A1"))
    );
    assert_eq!(
        vec![
            CellRange {
                start_row: 0,
                start_col: 0,
                stop_row: 3,
                stop_col: 1,
            },
            one(4, 2),
            CellRange {
                start_row: 1,
                start_col: 1,
                stop_row: -1,
                stop_col: 4,
            },
        ],
        get_refs(&parse("=SUM(A1:A3, MULT(C5, 2), B2:D)"))
    );
    assert_eq!(
        vec![CellRange {
            start_row: 2147483647,
            start_col: 2147483647,
            stop_row: 2147483647,
            stop_col: 2147483647,
        }],
        get_refs(&ASTNode::Ref(CellRef {
            col: 2147483647,
            row: 2147483647
        }))
    );
    assert_eq!(
        vec![one(0, 0)],
        get_refs(&ASTNode::BinaryExpr {
            op: Operator::Null,
            lhs: Box::new(ASTNode::Empty),
            rhs: Box::new(ASTNode::Ref(CellRef { col: 0, row: 0 })),
        })
    );
}

#[test]
fn nodes_evaluate_directly() {
    let g = grid(&[]);
    assert_eq!("", evaluate(ASTNode::Empty, &g));
    assert_eq!("boom", evaluate(ASTNode::ParseError("boom".to_string()), &g));
    assert_eq!(
        "3",
        evaluate(
            ASTNode::BinaryExpr {
                op: Operator::Null,
                lhs: Box::new(ASTNode::Number(Number::from_int(3).unwrap())),
                rhs: Box::new(ASTNode::Number(Number::from_int(4).unwrap())),
            },
            &g
        )
    );
    assert_eq!(
        "invalid unary operator Null",
        evaluate(
            ASTNode::UnaryExpr {
                op: Operator::Null,
                operand: Box::new(ASTNode::Empty),
            },
            &g
        )
    );
}
