use embedded::common::expression::{CellRange, Expression, Operator, RangeFunction};
use embedded::common::number::{Number, Reply, Request};
use embedded::common::structs::{AbsCell, RelCell};
use embedded::common::text::ParseError;
use embedded::parser::formula_parser::FormulaParser;

fn value(n: Number) -> f64 {
    f64::from_bits(n.bits)
}

fn number(x: f64) -> Number {
    Number::new(x.to_bits())
}

fn host(request: Request) -> Reply {
    let mut text: Vec<char> = Vec::new();
    let x = match request {
        Request::Literal(literal) => literal.iter().collect::<String>().parse::<f64>().unwrap(),
        Request::Render(n) => {
            text = format!("{}", value(n)).chars().collect();
            0.0
        }
        Request::Binary(Operator::Add, a, b) => value(a) + value(b),
        Request::Binary(Operator::Subtract, a, b) => value(a) - value(b),
        Request::Binary(Operator::Multiply, a, b) => value(a) * value(b),
        Request::Binary(Operator::Divide, a, b) => value(a) / value(b),
        Request::Lesser(a, b) => value(a).min(value(b)),
        Request::Greater(a, b) => value(a).max(value(b)),
        Request::Root(a) => value(a).sqrt(),
        Request::Count(n) => n as f64,
        Request::Delay(_) => 0.0,
    };
    Reply {
        number: number(x),
        text,
    }
}

#[test]
fn test_basic_formula() {
    let parser = FormulaParser::new(1000, 26);
    let cell = AbsCell::new(1, 1);
    let formula = "A1 + SUM(B1:Z9) + 1.0 - .3";
    let result = parser.parse(formula, cell, &host);
    assert!(result.is_ok(), "Failed to parse: {}", formula);
}

#[test]
fn test_negative_number() {
    let parser = FormulaParser::new(1000, 26);
    let cell = AbsCell::new(1, 1);
    let formula = "-.75";
    let result = parser.parse(formula, cell, &host);
    assert!(result.is_ok(), "Failed to parse: {}", formula);

    if let Ok(expr) = result {
        match expr {
            Expression::Number(n) => assert_eq!(value(n), -0.75),
            _ => panic!("Expected Number expression"),
        }
    }
}

#[test]
fn test_complex_expression() {
    let parser = FormulaParser::new(1000, 26);
    let cell = AbsCell::new(1, 1);
    let formula = "A1 * 2 + (B2 - C3) / 4";
    let result = parser.parse(formula, cell, &host);
    assert!(result.is_ok(), "Failed to parse: {}", formula);
}

#[test]
fn test_invalid_range() {
    let parser = FormulaParser::new(1000, 26);
    let formula = "SUM(Z9:A1)"; // Bottom-right should be below and to the right of top-left
    let cell = AbsCell::new(1, 1);

    let result = parser.parse(formula, cell, &host);
    assert!(result.is_err(), "Should fail with invalid range");
}

#[test]
fn test_out_of_bounds() {
    let parser = FormulaParser::new(1000, 26);
    // Column AA is beyond our 26-column limit (A-Z)
    let formula = "AA1 + B2";
    let cell = AbsCell::new(1, 1);

    let result = parser.parse(formula, cell, &host);
    assert!(result.is_err(), "Should fail with out of bounds error");
}

#[test]
fn test_row_out_of_bounds() {
    let parser = FormulaParser::new(1000, 26);
    // Row 1001 is beyond our 1000-row limit
    let formula = "A1001 + B2";
    let cell = AbsCell::new(1, 1);

    let result = parser.parse(formula, cell, &host);
    assert!(result.is_err(), "Should fail with out of bounds error");
}

fn boxed(e: Expression) -> Box<Expression> {
    Box::new(e)
}

#[test]
fn operators_group_to_the_left_and_products_bind_tighter() {
    let parser = FormulaParser::new(999, 18278);
    let origin = AbsCell::new(0, 0);
    let parsed = parser.parse("1 - 2 - 3 * 4", origin, &host).unwrap();
    let expected = Expression::BinaryOp(
        boxed(Expression::BinaryOp(
            boxed(Expression::Number(number(1.0))),
            Operator::Subtract,
            boxed(Expression::Number(number(2.0))),
        )),
        Operator::Subtract,
        boxed(Expression::BinaryOp(
            boxed(Expression::Number(number(3.0))),
            Operator::Multiply,
            boxed(Expression::Number(number(4.0))),
        )),
    );
    assert_eq!(parsed, expected);
}

#[test]
fn brackets_override_the_grouping() {
    let parser = FormulaParser::new(999, 18278);
    let origin = AbsCell::new(0, 0);
    let parsed = parser.parse("(1+2)*3", origin, &host).unwrap();
    let expected = Expression::BinaryOp(
        boxed(Expression::BinaryOp(
            boxed(Expression::Number(number(1.0))),
            Operator::Add,
            boxed(Expression::Number(number(2.0))),
        )),
        Operator::Multiply,
        boxed(Expression::Number(number(3.0))),
    );
    assert_eq!(parsed, expected);
}

#[test]
fn references_are_stored_relative_to_the_owner() {
    let parser = FormulaParser::new(999, 18278);
    let origin = AbsCell::new(4, 2);
    assert_eq!(
        parser.parse("b3", origin, &host),
        Ok(Expression::Cell(RelCell::new(-2, -1)))
    );
    assert_eq!(
        parser.parse(" SUM ( A1 : C3 ) ", origin, &host),
        Ok(Expression::RangeFunction(
            RangeFunction::Sum,
            CellRange {
                top_left: RelCell::new(-4, -2),
                bottom_right: RelCell::new(-2, 0),
            }
        ))
    );
    assert_eq!(
        parser.parse("SLEEP(A1/2)", origin, &host),
        Ok(Expression::Sleep(boxed(Expression::BinaryOp(
            boxed(Expression::Cell(RelCell::new(-4, -2))),
            Operator::Divide,
            boxed(Expression::Number(number(2.0))),
        ))))
    );
}

#[test]
fn every_function_name_is_read() {
    let parser = FormulaParser::new(10, 10);
    let origin = AbsCell::new(0, 0);
    let range = CellRange {
        top_left: RelCell::new(0, 0),
        bottom_right: RelCell::new(1, 1),
    };
    for (text, function) in [
        ("MIN(A1:B2)", RangeFunction::Min),
        ("MAX(A1:B2)", RangeFunction::Max),
        ("AVG(A1:B2)", RangeFunction::Avg),
        ("SUM(A1:B2)", RangeFunction::Sum),
        ("STDEV(A1:B2)", RangeFunction::Stdev),
    ] {
        assert_eq!(
            parser.parse(text, origin, &host),
            Ok(Expression::RangeFunction(function, range))
        );
    }
}

#[test]
fn each_refusal_has_its_error() {
    let parser = FormulaParser::new(10, 10);
    let origin = AbsCell::new(0, 0);
    // outside the grid, or no cell at all
    assert_eq!(parser.parse("K1", origin, &host), Err(ParseError::InvalidCell));
    assert_eq!(parser.parse("A11", origin, &host), Err(ParseError::InvalidCell));
    assert_eq!(parser.parse("A0", origin, &host), Err(ParseError::InvalidCell));
    assert_eq!(
        parser.parse("A99999999999", origin, &host),
        Err(ParseError::InvalidCell)
    );
    // ranges
    assert_eq!(
        parser.parse("SUM(B2:A1)", origin, &host),
        Err(ParseError::InvalidRange)
    );
    assert_eq!(
        parser.parse("SUM(A1:K1)", origin, &host),
        Err(ParseError::InvalidRange)
    );
    assert_eq!(
        parser.parse("SUM(A0:B1)", origin, &host),
        Err(ParseError::InvalidCell)
    );
    // grammar
    for text in [
        "", " ", "1 +", "+ 1", "1 2", "(1", "1)", "sum(A1:B2)", "FOO(A1:B2)", "SUM(A1)", "SUM(A1:B2",
        "1.", "-", "-A1", "A", "1..2", "A1:B2", "SLEEP()", "2A", "1 + * 2",
    ] {
        assert_eq!(
            parser.parse(text, origin, &host),
            Err(ParseError::InvalidFormula),
            "{:?}",
            text
        );
    }
}

#[test]
fn numbers_take_sign_and_fraction() {
    let parser = FormulaParser::new(10, 10);
    let origin = AbsCell::new(0, 0);
    for (text, expected) in [("7", 7.0), ("-7", -7.0), ("0.5", 0.5), (".5", 0.5), ("-12.25", -12.25)] {
        assert_eq!(
            parser.parse(text, origin, &host),
            Ok(Expression::Number(number(expected)))
        );
    }
    // a minus sign after an operand is an operator
    assert_eq!(
        parser.parse("A1 -2", origin, &host),
        Ok(Expression::BinaryOp(
            boxed(Expression::Cell(RelCell::new(0, 0))),
            Operator::Subtract,
            boxed(Expression::Number(number(2.0))),
        ))
    );
    assert_eq!(
        parser.parse("1 - -2", origin, &host),
        Ok(Expression::BinaryOp(
            boxed(Expression::Number(number(1.0))),
            Operator::Subtract,
            boxed(Expression::Number(number(-2.0))),
        ))
    );
}

#[test]
fn text_and_parse_round_trip() {
    let parser = FormulaParser::new(999, 18278);
    for origin in [AbsCell::new(0, 0), AbsCell::new(5, 7)] {
        for text in [
            "A1",
            "ZZ99",
            "1 + 2 * 3",
            "(1 + 2) * 3",
            "1 - (2 - 3)",
            "1 / (2 * 3)",
            "1 / 2 * 3",
            "SUM(A1:B2) + MIN(C3:C3)",
            "SLEEP(A1 + 1)",
            "-0.25 * (H8 - 3)",
            "STDEV(A1:ZZ99)",
        ] {
            let parsed = parser.parse(text, origin, &host).unwrap();
            let written = parsed.to_string(origin, &host);
            assert_eq!(written, text);
            assert_eq!(parser.parse(&written, origin, &host), Ok(parsed));
        }
    }
}

#[test]
fn labels_round_trip() {
    for (label, row, col) in [
        ("A1", 0, 0),
        ("B2", 1, 1),
        ("Z10", 9, 25),
        ("AA15", 14, 26),
        ("ZZZ999", 998, 18277),
    ] {
        assert_eq!(AbsCell::from_str(label), Ok(AbsCell::new(row, col)));
        assert_eq!(AbsCell::new(row, col).to_string(), label);
    }
    assert_eq!(AbsCell::from_str("aa15"), Ok(AbsCell::new(14, 26)));
    assert_eq!(AbsCell::from_str("A01"), Ok(AbsCell::new(0, 0)));
    for bad in ["", "A", "1", "A0", "1A", "A1B", "A 1", "A-1", "A99999"] {
        assert_eq!(AbsCell::from_str(bad), Err(ParseError::InvalidCell), "{:?}", bad);
    }
    // the last cell that a label can name
    assert_eq!(AbsCell::from_str("AVLH32768"), Ok(AbsCell::new(32767, 32767)));
    assert_eq!(AbsCell::new(32767, 32767).to_string(), "AVLH32768");
    assert_eq!(AbsCell::from_str("AVLI1"), Err(ParseError::InvalidCell));
}

#[test]
fn relative_and_absolute_cells_convert() {
    let origin = AbsCell::new(3, 4);
    let rel = RelCell::new(-1, 2);
    assert_eq!(rel.to_abs(origin), AbsCell::new(2, 6));
    assert_eq!(AbsCell::from_rel(rel, origin), AbsCell::new(2, 6));
    assert_eq!(AbsCell::new(2, 6).to_rel(origin), rel);
    assert_eq!(AbsCell::from_rel_origin(RelCell::new(5, 6)), AbsCell::new(5, 6));
    let range = CellRange {
        top_left: RelCell::new(-3, -4),
        bottom_right: RelCell::new(0, 0),
    };
    assert_eq!(range.to_string(origin), "A1:E4");
}
